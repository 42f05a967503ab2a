//! The list of servers that every policy balances over.

use vstd::prelude::*;

use crate::load::Load;
use crate::node::Node;
use crate::node::WeightedNode;
use crate::order::filter_by_id;
use crate::order::holds_id;
use crate::order::id_held_by;
use crate::order::id_other_than;
use crate::order::ids_distinct;
use crate::order::ids_sorted;
use crate::order::lemma_listed_add_order;
use crate::order::lemma_remove_keeps_order;
use crate::order::lemma_sorted_insert_unique;
use crate::order::listed_add;
use crate::order::lemma_move_to_multiset;
use crate::order::listed_add_all;
use crate::order::sorted_insert;

verus! {

/// The servers a policy balances over, each present once (by identity);
/// when `sorted` is set they are kept in ascending order of identity.
pub struct ServerList<T, L> {
    servers: Vec<WeightedNode<T, L>>,
    sorted: bool,
}

impl<T, L> View for ServerList<T, L> {
    type V = Seq<WeightedNode<T, L>>;

    closed spec fn view(&self) -> Seq<WeightedNode<T, L>> {
        self.servers@
    }
}

impl<T: Node, L: Load> ServerList<T, L> {
    /// Whether this list keeps its servers sorted by identity.
    pub closed spec fn keeps_sorted(&self) -> bool {
        self.sorted
    }

    /// The servers of the list, in order.
    pub open spec fn hosts(&self) -> Seq<T> {
        hosts_of(self@)
    }

    /// The invariant of a server list: identities are distinct, and sorted
    /// when the list keeps them sorted.
    pub open spec fn wf(&self) -> bool {
        &&& ids_distinct(self@)
        &&& self.keeps_sorted() ==> ids_sorted(self@)
    }


    /// An empty list; `sorted` says whether it keeps its servers in order
    /// of identity.
    pub fn new(sorted: bool) -> (r: Self)
        ensures
            r.wf(),
            r@.len() == 0,
            r.keeps_sorted() == sorted,
    {
        ServerList { servers: Vec::new(), sorted }
    }

    /// Adds a server with a fresh load figure, unless a server with the same
    /// identity is listed already.
    pub fn add(&mut self, host: T)
        requires
            old(self).wf(),
        ensures
            final(self).wf(),
            final(self).keeps_sorted() == old(self).keeps_sorted(),
            final(self).hosts() == listed_add(old(self).hosts(), host, old(self).keeps_sorted()),
            holds_id(old(self).hosts(), host.node_id()) ==> final(self)@ == old(self)@,
            kept_or_new(old(self)@, final(self)@, seq![host]),
            forall|i: int| 0 <= i < old(self)@.len() ==> final(self)@.contains(#[trigger] old(self)@[i]),
    {
        let item = WeightedNode::<T, L>::new(host);
        let item_id = item.id();
        let mut found = false;
        let mut i: usize = 0;
        while i < self.servers.len() && !found
            invariant
                i <= self.servers@.len(),
                found <==> holds_id(self.servers@.take(i as int), item_id),
            decreases self.servers@.len() - i,
        {
            if self.servers[i].id() == item_id {
                found = true;
                proof {
                    assert(self.servers@.take(i + 1)[i as int] == self.servers@[i as int]);
                }
            } else {
                proof {
                    let t = self.servers@.take(i + 1);
                    if holds_id(t, item_id) {
                        let j = choose|j: int| 0 <= j < t.len() && t[j].node_id() == item_id;
                        assert(j < i ==> self.servers@.take(i as int)[j] == t[j]);
                    }
                }
            }
            i = i + 1;
        }
        proof {
            let s = old(self)@;
            if !found {
                assert(s.take(s.len() as int) =~= s);
            } else {
                let t = s.take(i as int);
                let j = choose|j: int| 0 <= j < t.len() && t[j].node_id() == item_id;
                assert(t[j] == s[j]);
            }
            lemma_hosts_holds(s, item_id);
        }
        if !found {
            self.servers.push(item);
        }
        let ghost pushed = self.servers@;
        self.finalize();
        proof {
            let s = old(self)@;
            let f = self.servers@;
            if !found {
                assert(pushed.drop_last() =~= s);
                assert(pushed.last() == item);
                if self.sorted {
                    let k = choose|k: int|
                        0 <= k < pushed.len() && f == pushed.drop_last().insert(k, pushed.last());
                    lemma_sorted_insert_unique(s, k, item);
                    lemma_hosts_sorted_insert(s, item);
                    lemma_listed_add_order(s, item, true);
                    assert(listed_add(s, item, true) == f);
                    assert forall|i: int| 0 <= i < s.len() implies f.contains(#[trigger] s[i]) by {
                        assert(f[if i < k { i } else { i + 1 }] == s[i]);
                    }
                } else {
                    lemma_listed_add_order(s, item, false);
                    assert(hosts_of(s.push(item)) =~= hosts_of(s).push(host));
                    assert forall|i: int| 0 <= i < s.len() implies f.contains(#[trigger] s[i]) by {
                        assert(f[i] == s[i]);
                    }
                }
                assert forall|j: int| 0 <= j < f.len() implies s.contains(#[trigger] f[j]) || seq![host].contains(f[j].host()) by {
                    if f[j] == item {
                        assert(seq![host][0] == host);
                    } else {
                        assert(f.to_multiset().count(f[j]) > 0) by {
                            broadcast use vstd::seq_lib::group_to_multiset_ensures;
                            assert(f.contains(f[j]));
                        }
                        assert(pushed.to_multiset().count(f[j]) > 0);
                        broadcast use vstd::seq_lib::group_to_multiset_ensures;
                        assert(pushed.contains(f[j]));
                        let m = choose|m: int| 0 <= m < pushed.len() && pushed[m] == f[j];
                        assert(m < s.len());
                        assert(s[m] == f[j]);
                    }
                }
            } else {
                assert(f == s);
                assert forall|i: int| 0 <= i < s.len() implies f.contains(#[trigger] s[i]) by {
                    assert(f[i] == s[i]);
                }
            }
        }
    }

    /// Adds each of `hosts` in turn, as `add` does.
    pub fn update(&mut self, hosts: Vec<T>)
        requires
            old(self).wf(),
        ensures
            final(self).wf(),
            final(self).keeps_sorted() == old(self).keeps_sorted(),
            final(self).hosts() == listed_add_all(old(self).hosts(), hosts@, old(self).keeps_sorted()),
            kept_or_new(old(self)@, final(self)@, hosts@),
            forall|i: int| 0 <= i < old(self)@.len() ==> final(self)@.contains(#[trigger] old(self)@[i]),
    {
        let ghost s0 = self@;
        let ghost h0 = self.hosts();
        let ghost xs = hosts@;
        proof {
            assert(kept_or_new(s0, self@, xs)) by {
                assert forall|i: int| 0 <= i < s0.len() implies s0.contains(#[trigger] s0[i]) by {}
            }
            assert forall|i: int| 0 <= i < s0.len() implies self@.contains(#[trigger] s0[i]) by {
                assert(self@[i] == s0[i]);
            }
        }
        for x in it: hosts
            invariant
                it.seq() == xs,
                self.wf(),
                self.keeps_sorted() == old(self).keeps_sorted(),
                self.hosts() == listed_add_all(h0, xs.take(it.index() as int), self.keeps_sorted()),
                kept_or_new(s0, self@, xs),
                forall|i: int| 0 <= i < s0.len() ==> self@.contains(#[trigger] s0[i]),
        {
            let ghost mid = self@;
            let ghost gx = x;
            proof {
                assert(xs.take(it.index() + 1).drop_last() =~= xs.take(it.index() as int));
                assert(gx == xs[it.index() as int]);
                assert forall|y: T| seq![gx].contains(y) implies xs.contains(y) by {
                    assert(seq![gx][0] == gx);
                }
            }
            self.add(x);
            proof {
                lemma_kept_or_new_trans(s0, mid, self@, xs, seq![gx], xs);
                assert forall|i: int| 0 <= i < s0.len() implies self@.contains(#[trigger] s0[i]) by {
                    let m = choose|m: int| 0 <= m < mid.len() && mid[m] == s0[i];
                    assert(self@.contains(mid[m]));
                }
            }
        }
        proof {
            assert(xs.take(xs.len() as int) =~= xs);
        }
    }

    /// Drops every server whose identity is not among those of `hosts`, then
    /// adds each of `hosts` in turn, as `add` does.
    pub fn set(&mut self, hosts: Vec<T>)
        requires
            old(self).wf(),
        ensures
            final(self).wf(),
            final(self).keeps_sorted() == old(self).keeps_sorted(),
            final(self).hosts() == listed_add_all(
                filter_by_id(old(self).hosts(), id_held_by(hosts@)),
                hosts@,
                old(self).keeps_sorted(),
            ),
            kept_or_new(old(self)@, final(self)@, hosts@),
            forall|i: int|
                0 <= i < old(self)@.len() && holds_id(hosts@, old(self)@[i].node_id())
                    ==> final(self)@.contains(#[trigger] old(self)@[i]),
    {
        let mut ids: Vec<u64> = Vec::new();
        let mut j: usize = 0;
        while j < hosts.len()
            invariant
                j <= hosts@.len(),
                ids@ == hosts@.take(j as int).map_values(|h: T| h.node_id()),
            decreases hosts@.len() - j,
        {
            let id = hosts[j].id();
            ids.push(id);
            proof {
                assert(hosts@.take(j + 1).map_values(|h: T| h.node_id()) =~= hosts@.take(
                    j as int,
                ).map_values(|h: T| h.node_id()).push(id));
            }
            j = j + 1;
        }
        let ghost p = id_held_by(hosts@);
        proof {
            assert(hosts@.take(hosts@.len() as int) =~= hosts@);
            assert forall|i: u64| p(i) == ids@.contains(i) by {
                if p(i) {
                    let m = choose|m: int| 0 <= m < hosts@.len() && hosts@[m].node_id() == i;
                    assert(ids@[m] == i);
                }
                if ids@.contains(i) {
                    let m = choose|m: int| 0 <= m < ids@.len() && ids@[m] == i;
                    assert(hosts@[m].node_id() == i);
                }
            }
        }
        let ghost hs = hosts@;
        self.retain_by_id(&ids, true, Ghost(p));
        let ghost mid = self@;
        self.update(hosts);
        proof {
            lemma_kept_or_new_trans(old(self)@, mid, self@, hs, hs, hs);
            let s0 = old(self)@;
            assert forall|i: int| 0 <= i < s0.len() && holds_id(hs, s0[i].node_id()) implies self@.contains(#[trigger] s0[i]) by {
                let pred = |n: WeightedNode<T, L>| p(n.node_id());
                assert(pred(s0[i]));
                s0.lemma_filter_contains(pred, i);
                assert(mid.contains(s0[i]));
                let m = choose|m: int| 0 <= m < mid.len() && mid[m] == s0[i];
                assert(self@.contains(mid[m]));
            }
        }
    }

    /// Drops the server with the identity of `host`, if one is listed.
    pub fn remove(&mut self, host: &T)
        requires
            old(self).wf(),
        ensures
            final(self).wf(),
            final(self).keeps_sorted() == old(self).keeps_sorted(),
            final(self)@ == filter_by_id(old(self)@, id_other_than(host.node_id())),
            final(self).hosts() == filter_by_id(old(self).hosts(), id_other_than(host.node_id())),
    {
        let hid = host.id();
        let mut ids: Vec<u64> = Vec::new();
        ids.push(hid);
        let ghost p = id_other_than(host.node_id());
        proof {
            assert forall|i: u64| p(i) == (ids@.contains(i) == false) by {
                if ids@.contains(i) {
                    let m = choose|m: int| 0 <= m < ids@.len() && ids@[m] == i;
                }
                if i == hid {
                    assert(ids@[0] == hid);
                }
            }
        }
        self.retain_by_id(&ids, false, Ghost(p));
        self.finalize();
    }

    /// The servers of the list, in order.
    pub fn list(&self) -> (r: &Vec<WeightedNode<T, L>>)
        ensures
            r@ == self@,
    {
        &self.servers
    }

    /// Keeps the servers whose identity is in `ids` (when `listed`) or not in
    /// `ids` (otherwise), in order.
    fn retain_by_id(&mut self, ids: &Vec<u64>, listed: bool, Ghost(p): Ghost<spec_fn(u64) -> bool>)
        requires
            old(self).wf(),
            forall|i: u64| #[trigger] p(i) == (ids@.contains(i) == listed),
        ensures
            final(self).wf(),
            final(self).sorted == old(self).sorted,
            final(self)@ == filter_by_id(old(self)@, p),
            final(self).hosts() == filter_by_id(old(self).hosts(), p),
            forall|k: int| 0 <= k < final(self)@.len() ==> old(self)@.contains(#[trigger] final(self)@[k]),
    {
        let ghost s0 = self.servers@;
        let ghost mut j: int = 0;
        let mut i: usize = 0;
        while i < self.servers.len()
            invariant
                0 <= j <= s0.len(),
                i <= self.servers@.len(),
                self.sorted == old(self).sorted,
                forall|x: u64| #[trigger] p(x) == (ids@.contains(x) == listed),
                self.servers@ == filter_by_id(s0.take(j), p) + s0.skip(j),
                i == filter_by_id(s0.take(j), p).len(),
                ids_distinct(self.servers@),
                self.sorted ==> ids_sorted(self.servers@),
                forall|k: int| 0 <= k < self.servers@.len() ==> s0.contains(#[trigger] self.servers@[k]),
            decreases self.servers@.len() - i,
        {
            let ghost before = self.servers@;
            let id = self.servers[i].id();
            let inside = contains_id(ids, id);
            proof {
                reveal(Seq::filter);
                let f = filter_by_id(s0.take(j), p);
                assert(before[i as int] == s0.skip(j)[0]);
                assert(s0.take(j + 1).drop_last() =~= s0.take(j));
                assert(s0.take(j + 1).last() == s0[j]);
                assert(s0.skip(j)[0] == s0[j]);
                assert(s0.skip(j + 1) =~= s0.skip(j).drop_first());
            }
            if inside == listed {
                proof {
                    let f = filter_by_id(s0.take(j), p);
                    assert(filter_by_id(s0.take(j + 1), p) == f.push(s0[j]));
                    assert(f.push(s0[j]) + s0.skip(j + 1) =~= f + s0.skip(j));
                }
                i = i + 1;
            } else {
                self.servers.remove(i);
                proof {
                    let f = filter_by_id(s0.take(j), p);
                    assert(filter_by_id(s0.take(j + 1), p) == f);
                    assert(before.remove(i as int) =~= f + s0.skip(j + 1));
                    lemma_remove_keeps_order(before, i as int);
                    assert forall|k: int| 0 <= k < self.servers@.len() implies s0.contains(#[trigger] self.servers@[k]) by {
                        assert(self.servers@[k] == before[if k < i { k } else { k + 1 }]);
                    }
                }
            }
            proof {
                j = j + 1;
            }
        }
        proof {
            assert(s0.skip(j).len() == 0);
            assert(j == s0.len());
            assert(s0.take(j) =~= s0);
            assert(self.servers@ =~= filter_by_id(s0, p));
            lemma_hosts_filter(s0, p);
        }
    }

    /// Sorts the servers by identity when the list keeps them sorted.
    fn finalize(&mut self)
        ensures
            final(self).sorted == old(self).sorted,
            final(self)@.to_multiset() == old(self)@.to_multiset(),
            !old(self).sorted ==> final(self)@ == old(self)@,
            old(self).sorted ==> ids_sorted(final(self)@),
            old(self).sorted && ids_sorted(old(self)@) ==> final(self)@ == old(self)@,
            old(self).sorted && old(self)@.len() > 0 && ids_sorted(old(self)@.drop_last())
                ==> exists|k: int|
                0 <= k < old(self)@.len() && final(self)@ == old(self)@.drop_last().insert(
                    k,
                    old(self)@.last(),
                ),
    {
        if self.sorted {
            let ghost v0 = self.servers@;
            let n = self.servers.len();
            let mut i: usize = 1;
            if n == 0 {
                return;
            }
            proof {
                if n == 1 {
                    assert(v0.drop_last().insert(0, v0.last()) =~= v0);
                }
            }
            while i < n
                invariant
                    1 <= i <= n,
                    n == v0.len(),
                    self.sorted,
                    self.servers@.len() == n,
                    self.servers@.to_multiset() == v0.to_multiset(),
                    ids_sorted(self.servers@.take(i as int)),
                    self.servers@.skip(i as int) == v0.skip(i as int),
                    ids_sorted(v0.take(i as int)) ==> self.servers@ == v0,
                    i == n && ids_sorted(v0.drop_last()) ==> exists|k: int|
                        0 <= k < n && self.servers@ == v0.drop_last().insert(k, v0.last()),
                decreases n - i,
            {
                let key = self.servers[i].id();
                let ghost v1 = self.servers@;
                let mut k: usize = i;
                while k > 0 && self.servers[k - 1].id() > key
                    invariant
                        0 <= k <= i < n,
                        self.servers@ == v1,
                        v1.len() == n,
                        key == v1[i as int].node_id(),
                        forall|j: int| k <= j < i ==> #[trigger] v1[j].node_id() > key,
                    decreases k,
                {
                    k = k - 1;
                }
                proof {
                    assert(v1.take(i as int) == v1.subrange(0, i as int));
                    assert forall|j: int| 0 <= j < k implies #[trigger] v1[j].node_id() <= key by {
                        if k > 0 {
                            assert(v1.take(i as int)[j] == v1[j]);
                            assert(v1.take(i as int)[k - 1] == v1[k - 1]);
                        }
                    }
                }
                if k < i {
                    let x = self.servers.remove(i);
                    self.servers.insert(k, x);
                }
                proof {
                    let v2 = self.servers@;
                    let x = v1[i as int];
                    assert(v2 == v1.remove(i as int).insert(k as int, x)) by {
                        if k == i {
                            assert(v1.remove(i as int).insert(k as int, x) =~= v1);
                        }
                    }
                    lemma_move_to_multiset(v1, i as int, k as int);
                    assert forall|a: int, b: int| 0 <= a < b < i + 1 implies
                        #[trigger] v2.take(i + 1)[a].node_id() <= #[trigger] v2.take(i + 1)[b].node_id() by {
                        assert(v2.take(i + 1)[a] == v2[a]);
                        assert(v2.take(i + 1)[b] == v2[b]);
                        assert(v1.take(i as int)[a] == v1[a]) by {
                            if a < i { }
                        }
                        if b < k {
                            assert(v1.take(i as int)[b] == v1[b]);
                        } else if b == k {
                            if a < k { }
                        } else {
                            if a < k {
                            } else if a == k {
                            } else {
                                assert(v1.take(i as int)[b - 1] == v1[b - 1]);
                                assert(v1.take(i as int)[a - 1] == v1[a - 1]);
                            }
                        }
                    }
                    assert(v2.skip(i + 1) =~= v1.skip(i + 1));
                    assert(v1.skip(i + 1) =~= v0.skip(i + 1)) by {
                        assert forall|j: int| 0 <= j < n - (i + 1) implies #[trigger] v1.skip(i + 1)[j] == v0.skip(i + 1)[j] by {
                            assert(v1.skip(i as int)[j + 1] == v0.skip(i as int)[j + 1]);
                        }
                    }
                    if ids_sorted(v0.take(i + 1)) {
                        assert(ids_sorted(v0.take(i as int))) by {
                            assert forall|a: int, b: int| 0 <= a < b < i implies
                                #[trigger] v0.take(i as int)[a].node_id() <= #[trigger] v0.take(i as int)[b].node_id() by {
                                assert(v0.take(i + 1)[a] == v0.take(i as int)[a]);
                                assert(v0.take(i + 1)[b] == v0.take(i as int)[b]);
                            }
                        }
                        assert(v1 == v0);
                        if k < i {
                            assert(v0.take(i + 1)[k as int] == v0[k as int]);
                            assert(v0.take(i + 1)[i as int] == v0[i as int]);
                            assert(v0[k as int].node_id() > key);
                            assert(false);
                        }
                        assert(v2 =~= v0);
                    }
                    if i + 1 == n && ids_sorted(v0.drop_last()) {
                        assert(v0.take(i as int) =~= v0.drop_last());
                        assert(v1 == v0);
                        assert(v1.remove(i as int) =~= v0.drop_last());
                        assert(v0.last() == v1[i as int]);
                    }
                }
                i = i + 1;
            }
            proof {
                assert(self.servers@.take(n as int) =~= self.servers@);
                assert(v0.take(n as int) =~= v0);
            }
        }
    }
}

/// The servers that a sequence of nodes stands for.
pub open spec fn hosts_of<T, L>(s: Seq<WeightedNode<T, L>>) -> Seq<T> {
    s.map_values(|n: WeightedNode<T, L>| n.host())
}

/// Every node of `after` was a node of `before` (with its load figure), or
/// is a new node for one of `hosts`.
pub open spec fn kept_or_new<T, L>(
    before: Seq<WeightedNode<T, L>>,
    after: Seq<WeightedNode<T, L>>,
    hosts: Seq<T>,
) -> bool {
    forall|i: int|
        0 <= i < after.len() ==> before.contains(#[trigger] after[i]) || hosts.contains(after[i].host())
}

proof fn lemma_kept_or_new_trans<T, L>(
    a: Seq<WeightedNode<T, L>>,
    b: Seq<WeightedNode<T, L>>,
    c: Seq<WeightedNode<T, L>>,
    h1: Seq<T>,
    h2: Seq<T>,
    h: Seq<T>,
)
    requires
        kept_or_new(a, b, h1),
        kept_or_new(b, c, h2),
        forall|x: T| h1.contains(x) ==> h.contains(x),
        forall|x: T| h2.contains(x) ==> h.contains(x),
    ensures
        kept_or_new(a, c, h),
{
    assert forall|i: int| 0 <= i < c.len() implies a.contains(#[trigger] c[i]) || h.contains(c[i].host()) by {
        if b.contains(c[i]) {
            let m = choose|m: int| 0 <= m < b.len() && b[m] == c[i];
            assert(a.contains(b[m]) || h1.contains(b[m].host()));
        }
    }
}

/// Whether `id` is one of `ids`.
fn contains_id(ids: &Vec<u64>, id: u64) -> (r: bool)
    ensures
        r == ids@.contains(id),
{
    let mut i: usize = 0;
    while i < ids.len()
        invariant
            i <= ids@.len(),
            forall|k: int| 0 <= k < i ==> ids@[k] != id,
        decreases ids@.len() - i,
    {
        if ids[i] == id {
            return true;
        }
        i = i + 1;
    }
    false
}

proof fn lemma_hosts_holds<T: Node, L>(s: Seq<WeightedNode<T, L>>, id: u64)
    ensures
        holds_id(s, id) == holds_id(hosts_of(s), id),
{
    if holds_id(s, id) {
        let j = choose|j: int| 0 <= j < s.len() && s[j].node_id() == id;
        assert(hosts_of(s)[j] == s[j].host());
    }
    if holds_id(hosts_of(s), id) {
        let j = choose|j: int| 0 <= j < hosts_of(s).len() && hosts_of(s)[j].node_id() == id;
        assert(hosts_of(s)[j] == s[j].host());
    }
}

proof fn lemma_hosts_sorted_insert<T: Node, L>(s: Seq<WeightedNode<T, L>>, x: WeightedNode<T, L>)
    ensures
        hosts_of(sorted_insert(s, x)) == sorted_insert(hosts_of(s), x.host()),
    decreases s.len(),
{
    if s.len() == 0 {
        assert(hosts_of(seq![x]) =~= seq![x.host()]);
    } else {
        assert(hosts_of(s).last() == s.last().host());
        assert(hosts_of(s).drop_last() =~= hosts_of(s.drop_last()));
        if s.last().node_id() <= x.node_id() {
            assert(hosts_of(s.push(x)) =~= hosts_of(s).push(x.host()));
        } else {
            lemma_hosts_sorted_insert(s.drop_last(), x);
            let r = sorted_insert(s.drop_last(), x);
            assert(hosts_of(r.push(s.last())) =~= hosts_of(r).push(s.last().host()));
        }
    }
}

proof fn lemma_hosts_filter<T: Node, L>(s: Seq<WeightedNode<T, L>>, p: spec_fn(u64) -> bool)
    ensures
        hosts_of(filter_by_id(s, p)) == filter_by_id(hosts_of(s), p),
    decreases s.len(),
{
    reveal(Seq::filter);
    if s.len() == 0 {
        assert(hosts_of(filter_by_id(s, p)) =~= filter_by_id(hosts_of(s), p));
    } else {
        let d = s.drop_last();
        lemma_hosts_filter(d, p);
        assert(hosts_of(s).drop_last() =~= hosts_of(d));
        assert(hosts_of(s).last() == s.last().host());
        let f = filter_by_id(d, p);
        assert(hosts_of(f.push(s.last())) =~= hosts_of(f).push(s.last().host()));
    }
}

} // verus!
