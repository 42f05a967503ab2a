//! Consistent hashing: a key falls on a bucket of the server list, and its
//! replicas are the servers that follow that bucket around the ring.
//!
//! The bucket of a key is the jump hash of the key's MetroHash; jump hash
//! works in floating point, so callers compute the bucket and hand it in.

use std::cmp::Ordering;
use vstd::prelude::*;
use vstd::laws_cmp::obeys_cmp;
use vstd::laws_eq::obeys_concrete_eq;
use vstd::std_specs::cmp::OrdSpec;
use vstd::std_specs::cmp::PartialEqSpec;
use vstd::std_specs::cmp::PartialOrdSpec;

use crate::hashing::metrohash64;
use crate::hashing::metrohash64_bytes;
use crate::load::Load;
use crate::node::Node;
use crate::node::WeightedNode;
use crate::order::wide;
use crate::server_list::ServerList;

verus! {

/// A ring of servers with a number of replicas per key.
pub struct Ring<T, L> {
    servers: ServerList<T, L>,
    replicas: usize,
}

impl<T: Node, L: Load> Ring<T, L> {
    /// A ring over `servers` that gives each key `replicas` replicas.
    pub fn new(servers: ServerList<T, L>, replicas: usize) -> (r: Self)
        ensures
            r.servers_view() == servers,
            r.replica_count() == replicas,
    {
        Ring { servers, replicas }
    }

    /// The server list.
    pub closed spec fn servers_view(&self) -> ServerList<T, L> {
        self.servers
    }

    /// The number of replicas each key gets.
    pub closed spec fn replica_count(&self) -> usize {
        self.replicas
    }

    /// The `k`-th replica of the keys that fall on `bucket`: the server `k`
    /// places after it, around the ring.
    pub open spec fn replica_at(&self, bucket: int, k: int) -> WeightedNode<T, L> {
        self.servers_view()@[(bucket + k) % (self.servers_view()@.len() as int)]
    }

    /// The number of replicas each key gets.
    pub fn replicas_per_key(&self) -> (r: usize)
        ensures
            r == self.replica_count(),
    {
        self.replicas
    }

    /// The MetroHash of a key, from which the jump hash draws its bucket.
    pub fn key_hash(key: &[u8]) -> (r: u64)
        ensures
            r == metrohash64(key@),
    {
        metrohash64_bytes(key)
    }

    /// The replicas of the keys that fall on `bucket`, in order around the
    /// ring from that bucket.
    pub fn replicas(&self, bucket: usize) -> (r: Vec<&WeightedNode<T, L>>)
        requires
            self.replica_count() > 0 ==> self.servers_view()@.len() > 0,
            bucket + self.replica_count() <= usize::MAX,
        ensures
            r@.len() == self.replica_count(),
            forall|k: int| 0 <= k < r@.len() ==> *#[trigger] r@[k] == self.replica_at(bucket as int, k),
    {
        let hosts = self.servers.list();
        let end = bucket + self.replicas;
        let mut out: Vec<&WeightedNode<T, L>> = Vec::new();
        let mut x = bucket;
        while x < end
            invariant
                bucket <= x <= end,
                end == bucket + self.replica_count(),
                hosts@ == self.servers_view()@,
                self.replica_count() > 0 ==> hosts@.len() > 0,
                out@.len() == x - bucket,
                forall|k: int| 0 <= k < out@.len() ==> *#[trigger] out@[k] == self.replica_at(bucket as int, k),
            decreases end - x,
        {
            let index = x % hosts.len();
            out.push(&hosts[index]);
            x = x + 1;
        }
        out
    }

    /// Of the replicas of the keys that fall on `bucket`, the first whose
    /// load figure is smallest; each figure is read once, and other threads
    /// may change them at any time. Where the figures are totally ordered,
    /// the replica returned has a figure not above that of any replica of the
    /// bucket, and every replica before it has a greater figure.
    pub fn least_loaded(&self, bucket: usize) -> (r: &WeightedNode<T, L>)
        requires
            self.replica_count() > 0,
            self.servers_view()@.len() > 0,
            bucket + self.replica_count() <= usize::MAX,
        ensures
            exists|k: int| 0 <= k < self.replica_count() && *r == self.replica_at(wide(bucket), k),
            exists|figs: Seq<L::Metric>, m: int|
                #![trigger figs.len(), self.replica_at(wide(bucket), m)]
                {
                    &&& figs.len() == self.replica_count()
                    &&& forall|k: int|
                        0 <= k < figs.len() ==> call_ensures(
                            L::load,
                            (&self.replica_at(wide(bucket), k).load_of(),),
                            #[trigger] figs[k],
                        )
                    &&& 0 <= m < self.replica_count()
                    &&& *r == self.replica_at(wide(bucket), m)
                    &&& obeys_cmp::<L::Metric>() && obeys_concrete_eq::<L::Metric>() ==> {
                        &&& forall|k: int|
                            0 <= k < figs.len() ==> #[trigger] figs[m].cmp_spec(&figs[k]) != Ordering::Greater
                        &&& forall|k: int|
                            0 <= k < m ==> #[trigger] figs[k].cmp_spec(&figs[m]) == Ordering::Greater
                    }
                },
    {
        let nodes = self.replicas(bucket);
        let mut figures: Vec<L::Metric> = Vec::new();
        let mut j: usize = 0;
        while j < nodes.len()
            invariant
                j <= nodes@.len(),
                nodes@.len() == self.replica_count(),
                forall|k: int| 0 <= k < nodes@.len() ==> *#[trigger] nodes@[k] == self.replica_at(wide(bucket), k),
                figures@.len() == j,
                forall|k: int|
                    0 <= k < j ==> call_ensures(
                        L::load,
                        (&self.replica_at(wide(bucket), k).load_of(),),
                        #[trigger] figures@[k],
                    ),
            decreases nodes@.len() - j,
        {
            let f = nodes[j].load().load();
            figures.push(f);
            j = j + 1;
        }
        let best = first_min_index(&figures);
        let r = nodes[best];
        proof {
            assert(*nodes@[wide(best)] == self.replica_at(wide(bucket), wide(best)));
            assert(figures@.len() == self.replica_count());
        }
        r
    }

    /// The server for the keys that fall on `bucket`.
    pub fn get_node(&self, bucket: usize) -> (r: &WeightedNode<T, L>)
        requires
            bucket < self.servers_view()@.len(),
        ensures
            *r == self.servers_view()@[bucket as int],
    {
        &self.servers.list()[bucket]
    }

    /// The server list.
    pub fn servers(&self) -> (r: &ServerList<T, L>)
        ensures
            *r == self.servers_view(),
    {
        &self.servers
    }

    /// The server list, for changes.
    pub fn servers_mut(&mut self) -> (r: &mut ServerList<T, L>)
        ensures
            *r == old(self).servers_view(),
            final(self).servers_view() == *final(r),
            final(self).replica_count() == old(self).replica_count(),
    {
        &mut self.servers
    }
}

/// Consistent hashing without load figures: a key goes to the server its
/// bucket falls on.
pub struct Consistent<T> {
    pub ring: Ring<T, ()>,
}

impl<T: Node> Consistent<T> {
    /// The server for the keys that fall on `bucket`.
    pub fn balance(&self, bucket: usize) -> (r: &WeightedNode<T, ()>)
        requires
            bucket < self.ring.servers_view()@.len(),
        ensures
            *r == self.ring.servers_view()@[bucket as int],
    {
        self.ring.get_node(bucket)
    }

    /// The server list.
    pub fn servers(&self) -> (r: &ServerList<T, ()>)
        ensures
            *r == self.ring.servers_view(),
    {
        self.ring.servers()
    }

    /// The server list, for changes.
    pub fn servers_mut(&mut self) -> (r: &mut ServerList<T, ()>)
        ensures
            *r == old(self).ring.servers_view(),
            final(self).ring.servers_view() == *final(r),
            final(self).ring.replica_count() == old(self).ring.replica_count(),
    {
        self.ring.servers_mut()
    }
}

/// Consistent hashing over servers with load figures: a key goes to the
/// server its bucket falls on.
pub struct Bounded<T, L> {
    pub ring: Ring<T, L>,
}

impl<T: Node, L: Load> Bounded<T, L> {
    /// The server for the keys that fall on `bucket`.
    pub fn balance(&self, bucket: usize) -> (r: &WeightedNode<T, L>)
        requires
            bucket < self.ring.servers_view()@.len(),
        ensures
            *r == self.ring.servers_view()@[bucket as int],
    {
        self.ring.get_node(bucket)
    }

    /// The server list.
    pub fn servers(&self) -> (r: &ServerList<T, L>)
        ensures
            *r == self.ring.servers_view(),
    {
        self.ring.servers()
    }

    /// The server list, for changes.
    pub fn servers_mut(&mut self) -> (r: &mut ServerList<T, L>)
        ensures
            *r == old(self).ring.servers_view(),
            final(self).ring.servers_view() == *final(r),
            final(self).ring.replica_count() == old(self).ring.replica_count(),
    {
        self.ring.servers_mut()
    }
}

/// The index of the first smallest of a non-empty list of figures, as
/// `Iterator::min_by_key` picks it: an entry replaces the best so far only
/// when the best so far compares greater.
pub fn first_min_index<M: Ord>(figures: &Vec<M>) -> (r: usize)
    requires
        figures@.len() > 0,
    ensures
        r < figures@.len(),
        obeys_cmp::<M>() && obeys_concrete_eq::<M>() ==> {
            &&& forall|j: int|
                0 <= j < figures@.len() ==> #[trigger] figures@[wide(r)].cmp_spec(&figures@[j])
                    != Ordering::Greater
            &&& forall|j: int|
                0 <= j < wide(r) ==> #[trigger] figures@[j].cmp_spec(&figures@[wide(r)])
                    == Ordering::Greater
        },
{
    let ghost laws = obeys_cmp::<M>() && obeys_concrete_eq::<M>();
    let mut best: usize = 0;
    let mut i: usize = 1;
    proof {
        if laws {
            lemma_cmp_reflexive::<M>();
        }
    }
    while i < figures.len()
        invariant
            1 <= i <= figures@.len(),
            best < i,
            laws == (obeys_cmp::<M>() && obeys_concrete_eq::<M>()),
            laws ==> forall|j: int|
                0 <= j < wide(i) ==> #[trigger] figures@[wide(best)].cmp_spec(&figures@[j])
                    != Ordering::Greater,
            laws ==> forall|j: int|
                0 <= j < wide(best) ==> #[trigger] figures@[j].cmp_spec(&figures@[wide(best)])
                    == Ordering::Greater,
        decreases figures@.len() - i,
    {
        let c = figures[best].cmp(&figures[i]);
        proof {
            if laws {
                lemma_cmp_reflexive::<M>();
            }
        }
        match c {
            Ordering::Greater => {
                proof {
                    if laws {
                        lemma_greater_chain(figures@, wide(best), wide(i));
                    }
                }
                best = i;
            },
            _ => {},
        }
        i = i + 1;
    }
    best
}

/// Under the order laws, `cmp` computes `cmp_spec`, and every figure compares
/// equal to itself.
proof fn lemma_cmp_reflexive<M: Ord>()
    requires
        obeys_cmp::<M>(),
    ensures
        M::obeys_cmp_spec(),
        forall|x: M| #[trigger] x.cmp_spec(&x) == Ordering::Equal,
{
    reveal(vstd::laws_cmp::obeys_cmp_ord);
    reveal(vstd::laws_cmp::obeys_cmp_partial_ord);
    reveal(vstd::laws_cmp::obeys_partial_cmp_spec_properties);
    reveal(vstd::laws_eq::obeys_eq_spec_properties);
    assert forall|x: M| #[trigger] x.cmp_spec(&x) == Ordering::Equal by {
        assert(x.partial_cmp_spec(&x) == Some(x.cmp_spec(&x)));
        if x.cmp_spec(&x) == Ordering::Less {
            assert(x.partial_cmp_spec(&x) == Some(Ordering::Greater));
        }
        if x.cmp_spec(&x) == Ordering::Greater {
            assert(x.partial_cmp_spec(&x) == Some(Ordering::Less));
        }
    }
}

/// Under the order laws, every figure not below `f[b]` is above any figure
/// that `f[b]` is above.
proof fn lemma_greater_chain<M: Ord>(f: Seq<M>, b: int, i: int)
    requires
        obeys_cmp::<M>(),
        obeys_concrete_eq::<M>(),
        0 <= b < i < f.len(),
        f[b].cmp_spec(&f[i]) == Ordering::Greater,
        forall|j: int| 0 <= j < i ==> #[trigger] f[b].cmp_spec(&f[j]) != Ordering::Greater,
        forall|j: int| 0 <= j < b ==> #[trigger] f[j].cmp_spec(&f[b]) == Ordering::Greater,
    ensures
        forall|j: int| 0 <= j < i ==> #[trigger] f[j].cmp_spec(&f[i]) == Ordering::Greater,
        forall|j: int| 0 <= j <= i ==> #[trigger] f[i].cmp_spec(&f[j]) != Ordering::Greater,
{
    reveal(vstd::laws_cmp::obeys_cmp_ord);
    reveal(vstd::laws_cmp::obeys_cmp_partial_ord);
    reveal(vstd::laws_cmp::obeys_partial_cmp_spec_properties);
    reveal(vstd::laws_eq::obeys_concrete_eq);
    reveal(vstd::laws_eq::obeys_eq_spec_properties);
    assert(f[b].partial_cmp_spec(&f[i]) == Some(f[b].cmp_spec(&f[i])));
    assert forall|j: int| 0 <= j < i implies #[trigger] f[j].cmp_spec(&f[i]) == Ordering::Greater by {
        assert(f[b].partial_cmp_spec(&f[j]) == Some(f[b].cmp_spec(&f[j])));
        assert(f[j].partial_cmp_spec(&f[i]) == Some(f[j].cmp_spec(&f[i])));
        assert(f[j].partial_cmp_spec(&f[b]) == Some(f[j].cmp_spec(&f[b])));
        if f[b].cmp_spec(&f[j]) == Ordering::Equal {
            assert(f[b].eq_spec(&f[j]));
            assert(f[b] == f[j]);
        } else {
            assert(f[b].cmp_spec(&f[j]) == Ordering::Less);
            assert(f[j].partial_cmp_spec(&f[b]) == Some(Ordering::Greater));
        }
    }
    assert forall|j: int| 0 <= j <= i implies #[trigger] f[i].cmp_spec(&f[j]) != Ordering::Greater by {
        assert(f[i].partial_cmp_spec(&f[j]) == Some(f[i].cmp_spec(&f[j])));
        assert(f[j].partial_cmp_spec(&f[i]) == Some(f[j].cmp_spec(&f[i])));
        if j == i {
            assert(f[i].eq_spec(&f[i]));
            assert(f[i].partial_cmp_spec(&f[i]) == Some(Ordering::Equal));
        } else {
            assert(f[j].cmp_spec(&f[i]) == Ordering::Greater);
        }
    }
}

} // verus!
