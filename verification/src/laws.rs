//! Properties of the library that span several calls.

use vstd::prelude::*;
use vstd::std_specs::cmp::PartialEqSpec;

use crate::load::EwmaState;
use crate::load::Load;
use crate::node::Node;
use crate::node::WeightedNode;
use crate::server_list::hosts_of;
use crate::order::filter_by_id;
use crate::order::holds_id;
use crate::order::id_held_by;
use crate::order::id_other_than;
use crate::order::ids_distinct;
use crate::order::ids_sorted;
use crate::order::listed_add;
use crate::order::listed_add_all;
use crate::order::sorted_insert;
use crate::policies::listed;
use crate::policies::unlisted;
use crate::policies::without_first;

verus! {

/// Adding a server twice leaves the list as adding it once does.
pub proof fn law_add_idempotent<N: Node>(s: Seq<N>, x: N, sorted: bool)
    ensures
        listed_add(listed_add(s, x, sorted), x, sorted) == listed_add(s, x, sorted),
{
    let once = listed_add(s, x, sorted);
    lemma_listed_add_holds(s, x, sorted);
    assert(holds_id(once, x.node_id()));
}

/// After `listed_add`, the list holds the identity of the server added, and
/// every identity it held before.
proof fn lemma_listed_add_holds<N: Node>(s: Seq<N>, x: N, sorted: bool)
    ensures
        holds_id(listed_add(s, x, sorted), x.node_id()),
        forall|id: u64| #[trigger] holds_id(listed_add(s, x, sorted), id) <==> (holds_id(s, id) || id == x.node_id()),
{
    if !holds_id(s, x.node_id()) {
        if sorted {
            lemma_sorted_insert_ids(s, x);
        } else {
            let t = s.push(x);
            assert(t[s.len() as int] == x);
            assert forall|id: u64| holds_id(t, id) <==> (holds_id(s, id) || id == x.node_id()) by {
                if holds_id(s, id) {
                    let j = choose|j: int| 0 <= j < s.len() && s[j].node_id() == id;
                    assert(t[j] == s[j]);
                }
                if holds_id(t, id) {
                    let j = choose|j: int| 0 <= j < t.len() && t[j].node_id() == id;
                    if j < s.len() {
                        assert(t[j] == s[j]);
                    }
                }
            }
        }
    }
}

/// `sorted_insert` holds the identities of `s` and that of `x`, and no other.
proof fn lemma_sorted_insert_ids<N: Node>(s: Seq<N>, x: N)
    ensures
        forall|id: u64| #[trigger] holds_id(sorted_insert(s, x), id) <==> (holds_id(s, id) || id == x.node_id()),
    decreases s.len(),
{
    let r = sorted_insert(s, x);
    if s.len() == 0 {
        assert(r[0] == x);
    } else if s.last().node_id() <= x.node_id() {
        assert forall|id: u64| holds_id(r, id) <==> (holds_id(s, id) || id == x.node_id()) by {
            assert(r[s.len() as int] == x);
            if holds_id(s, id) {
                let j = choose|j: int| 0 <= j < s.len() && s[j].node_id() == id;
                assert(r[j] == s[j]);
            }
            if holds_id(r, id) {
                let j = choose|j: int| 0 <= j < r.len() && r[j].node_id() == id;
                if j < s.len() {
                    assert(r[j] == s[j]);
                }
            }
        }
    } else {
        let d = s.drop_last();
        lemma_sorted_insert_ids(d, x);
        let r0 = sorted_insert(d, x);
        assert forall|id: u64| holds_id(r, id) <==> (holds_id(s, id) || id == x.node_id()) by {
            assert(r == r0.push(s.last()));
            assert(r[r0.len() as int] == s.last());
            assert(s[d.len() as int] == s.last());
            if holds_id(s, id) {
                let j = choose|j: int| 0 <= j < s.len() && s[j].node_id() == id;
                if j == d.len() {
                    assert(r[r0.len() as int].node_id() == id);
                } else {
                    assert(d[j] == s[j]);
                    assert(holds_id(d, id));
                    assert(holds_id(r0, id));
                    let k = choose|k: int| 0 <= k < r0.len() && r0[k].node_id() == id;
                    assert(r[k] == r0[k]);
                }
            }
            if id == x.node_id() {
                assert(holds_id(r0, id));
                let k = choose|k: int| 0 <= k < r0.len() && r0[k].node_id() == id;
                assert(r[k] == r0[k]);
            }
            if holds_id(r, id) {
                let j = choose|j: int| 0 <= j < r.len() && r[j].node_id() == id;
                if j < r0.len() {
                    assert(r[j] == r0[j]);
                    assert(holds_id(r0, id));
                    if holds_id(d, id) {
                        let k = choose|k: int| 0 <= k < d.len() && d[k].node_id() == id;
                        assert(s[k] == d[k]);
                    }
                }
            }
        }
    }
}

/// Removing a server that was just added to a list without its identity
/// gives back the list.
pub proof fn law_remove_undoes_add<N: Node>(s: Seq<N>, x: N, sorted: bool)
    requires
        !holds_id(s, x.node_id()),
    ensures
        filter_by_id(listed_add(s, x, sorted), id_other_than(x.node_id())) == s,
{
    let p = id_other_than(x.node_id());
    lemma_filter_absent(s, x.node_id());
    if sorted {
        lemma_filter_sorted_insert(s, x);
    } else {
        reveal(Seq::filter);
        assert(s.push(x).drop_last() =~= s);
    }
}

proof fn lemma_filter_absent<N: Node>(s: Seq<N>, id: u64)
    requires
        !holds_id(s, id),
    ensures
        filter_by_id(s, id_other_than(id)) == s,
    decreases s.len(),
{
    reveal(Seq::filter);
    if s.len() > 0 {
        let d = s.drop_last();
        assert(!holds_id(d, id)) by {
            if holds_id(d, id) {
                let j = choose|j: int| 0 <= j < d.len() && d[j].node_id() == id;
                assert(s[j] == d[j]);
            }
        }
        lemma_filter_absent(d, id);
        assert(s[s.len() - 1] == s.last());
        assert(d.push(s.last()) =~= s);
    }
}

proof fn lemma_filter_sorted_insert<N: Node>(s: Seq<N>, x: N)
    requires
        !holds_id(s, x.node_id()),
        filter_by_id(s, id_other_than(x.node_id())) == s,
    ensures
        filter_by_id(sorted_insert(s, x), id_other_than(x.node_id())) == s,
    decreases s.len(),
{
    reveal_with_fuel(Seq::filter, 2);
    let p = id_other_than(x.node_id());
    let pred = |n: N| p(n.node_id());
    if s.len() == 0 {
        let r = seq![x];
        assert(r.drop_last() =~= Seq::<N>::empty());
        assert(!pred(r.last()));
        assert(r.filter(pred) =~= s);
    } else if s.last().node_id() <= x.node_id() {
        let r = s.push(x);
        assert(r.drop_last() =~= s);
        assert(!pred(r.last()));
    } else {
        let d = s.drop_last();
        assert(!holds_id(d, x.node_id())) by {
            if holds_id(d, x.node_id()) {
                let j = choose|j: int| 0 <= j < d.len() && d[j].node_id() == x.node_id();
                assert(s[j] == d[j]);
            }
        }
        lemma_filter_absent(d, x.node_id());
        lemma_filter_sorted_insert(d, x);
        let r0 = sorted_insert(d, x);
        let r = r0.push(s.last());
        assert(sorted_insert(s, x) == r);
        assert(r.drop_last() =~= r0);
        assert(r.last() == s.last());
        assert(s[s.len() - 1] == s.last());
        assert(s.last().node_id() != x.node_id());
        assert(pred(r.last()));
        assert(r.filter(pred) == r0.filter(pred).push(s.last()));
        assert(d.push(s.last()) =~= s);
    }
}

/// After `set`, a server list holds exactly the identities of the hosts it
/// was set to.
pub proof fn law_set_holds_exactly<N: Node>(s: Seq<N>, hosts: Seq<N>, sorted: bool)
    ensures
        forall|id: u64|
            holds_id(
                listed_add_all(filter_by_id(s, id_held_by(hosts)), hosts, sorted),
                id,
            ) <==> holds_id(hosts, id),
{
    let kept = filter_by_id(s, id_held_by(hosts));
    lemma_filter_holds(s, id_held_by(hosts));
    lemma_add_all_holds(kept, hosts, sorted);
}

proof fn lemma_filter_holds<N: Node>(s: Seq<N>, p: spec_fn(u64) -> bool)
    ensures
        forall|id: u64| holds_id(filter_by_id(s, p), id) ==> p(id),
{
    broadcast use vstd::seq_lib::group_filter_ensures;

    assert forall|id: u64| holds_id(filter_by_id(s, p), id) implies p(id) by {
        let f = filter_by_id(s, p);
        let j = choose|j: int| 0 <= j < f.len() && f[j].node_id() == id;
        let pred = |n: N| p(n.node_id());
        assert(pred(f[j]));
    }
}

proof fn lemma_add_all_holds<N: Node>(s: Seq<N>, xs: Seq<N>, sorted: bool)
    ensures
        forall|id: u64| #[trigger] holds_id(listed_add_all(s, xs, sorted), id) <==> (holds_id(s, id) || holds_id(xs, id)),
    decreases xs.len(),
{
    if xs.len() > 0 {
        let d = xs.drop_last();
        lemma_add_all_holds(s, d, sorted);
        lemma_listed_add_holds(listed_add_all(s, d, sorted), xs.last(), sorted);
        assert forall|id: u64| holds_id(xs, id) <==> (holds_id(d, id) || id == xs.last().node_id()) by {
            assert(xs[xs.len() - 1] == xs.last());
            if holds_id(xs, id) {
                let j = choose|j: int| 0 <= j < xs.len() && xs[j].node_id() == id;
                if j < d.len() {
                    assert(d[j] == xs[j]);
                }
            }
            if holds_id(d, id) {
                let j = choose|j: int| 0 <= j < d.len() && d[j].node_id() == id;
                assert(d[j] == xs[j]);
            }
        }
    }
}

/// Adding servers that are all listed already leaves the list as it was.
pub proof fn law_update_with_listed_is_noop<N: Node>(s: Seq<N>, xs: Seq<N>, sorted: bool)
    requires
        forall|k: int| 0 <= k < xs.len() ==> holds_id(s, #[trigger] xs[k].node_id()),
    ensures
        listed_add_all(s, xs, sorted) == s,
    decreases xs.len(),
{
    if xs.len() > 0 {
        let d = xs.drop_last();
        assert forall|k: int| 0 <= k < d.len() implies holds_id(s, #[trigger] d[k].node_id()) by {
            assert(d[k] == xs[k]);
        }
        law_update_with_listed_is_noop(s, d, sorted);
        assert(holds_id(s, xs[xs.len() - 1].node_id()));
    }
}

/// Consecutive turns of a round robin fall on consecutive places of the
/// list, wrapping from the last place to the first.
pub proof fn law_round_robin_turns(turn: int, len: int)
    requires
        turn >= 0,
        len > 0,
    ensures
        (turn + 1) % len == ((turn % len) + 1) % len,
{
    vstd::arithmetic::div_mod::lemma_add_mod_noop(turn, 1, len);
    vstd::arithmetic::div_mod::lemma_mod_twice(turn, len);
    if len > 1 {
        vstd::arithmetic::div_mod::lemma_small_mod(1, len as nat);
    }
}

/// In a list of `len` servers, the first `len` replicas of a bucket are
/// all different places.
pub proof fn law_replicas_distinct(bucket: int, len: int, a: int, b: int)
    requires
        bucket >= 0,
        0 <= a < b < len,
    ensures
        (bucket + a) % len != (bucket + b) % len,
{
    let x = bucket + a;
    let y = bucket + b;
    let m = len;
    vstd::arithmetic::div_mod::lemma_fundamental_div_mod(x, m);
    vstd::arithmetic::div_mod::lemma_fundamental_div_mod(y, m);
    if x % m == y % m {
        let k = y / m - x / m;
        assert(y - x == m * k) by (nonlinear_arith)
            requires
                x == m * (x / m) + x % m,
                y == m * (y / m) + y % m,
                x % m == y % m,
                k == y / m - x / m,
        ;
        assert(false) by (nonlinear_arith)
            requires
                y - x == m * k,
                0 < y - x < m,
                m > 0,
        ;
    }
}

/// Adding a server at the end of a set that had no entry equal to it, then
/// removing it, gives back the set.
pub proof fn law_remove_undoes_add_node<T: PartialEq>(s: Seq<T>, x: T)
    requires
        forall|i: int| 0 <= i < s.len() ==> !#[trigger] s[i].eq_spec(&x),
        x.eq_spec(&x),
    ensures
        without_first(s.push(x), x) == s,
{
    let t = s.push(x);
    assert(crate::policies::first_equal_at(t, x, s.len() as int)) by {
        assert forall|j: int| 0 <= j < s.len() implies !#[trigger] t[j].eq_spec(&x) by {
            assert(t[j] == s[j]);
        }
    }
    crate::policies::lemma_without_first(t, x, s.len() as int);
    assert(t.remove(s.len() as int) =~= s);
}

/// After `remove_nodes`, no entry of the set is listed among the servers
/// removed.
pub proof fn law_removed_nodes_gone<T: PartialEq>(s: Seq<T>, hosts: Seq<T>)
    ensures
        forall|i: int| 0 <= i < unlisted(s, hosts).len() ==> !listed(hosts, #[trigger] unlisted(s, hosts)[i]),
{
    broadcast use vstd::seq_lib::group_filter_ensures;

    assert forall|i: int| 0 <= i < unlisted(s, hosts).len() implies !listed(hosts, #[trigger] unlisted(s, hosts)[i]) by {
        let pred = |n: T| !listed(hosts, n);
        assert(pred(s.filter(pred)[i]));
    }
}

} // verus!

verus! {

/// Setting a list to the same hosts twice leaves it as the first setting
/// did, node for node (so every server keeps its load figure).
pub proof fn law_set_idempotent<T: Node, L: Load>(
    s: Seq<WeightedNode<T, L>>,
    f1: Seq<WeightedNode<T, L>>,
    f2: Seq<WeightedNode<T, L>>,
    hosts: Seq<T>,
    sorted: bool,
)
    requires
        ids_distinct(f2),
        hosts_of(f1) == listed_add_all(filter_by_id(hosts_of(s), id_held_by(hosts)), hosts, sorted),
        hosts_of(f2) == listed_add_all(filter_by_id(hosts_of(f1), id_held_by(hosts)), hosts, sorted),
        forall|i: int|
            0 <= i < f1.len() && holds_id(hosts, f1[i].node_id()) ==> f2.contains(#[trigger] f1[i]),
    ensures
        f2 == f1,
{
    let h1 = hosts_of(f1);
    law_set_holds_exactly(hosts_of(s), hosts, sorted);
    assert forall|k: int| 0 <= k < h1.len() implies #[trigger] id_held_by(hosts)(h1[k].node_id()) by {
        assert(holds_id(h1, h1[k].node_id()));
    }
    lemma_filter_all(h1, id_held_by(hosts));
    assert forall|k: int| 0 <= k < hosts.len() implies holds_id(h1, #[trigger] hosts[k].node_id()) by {
        assert(holds_id(hosts, hosts[k].node_id()));
    }
    law_update_with_listed_is_noop(h1, hosts, sorted);
    assert(hosts_of(f2) == h1);
    assert(f2.len() == f1.len());
    assert forall|i: int| 0 <= i < f1.len() implies f2[i] == f1[i] by {
        assert(h1[i] == f1[i].host());
        assert(holds_id(h1, f1[i].node_id()));
        assert(holds_id(hosts, f1[i].node_id()));
        let j = choose|j: int| 0 <= j < f2.len() && f2[j] == f1[i];
        assert(hosts_of(f2)[i] == f2[i].host());
        assert(f2[i].node_id() == f1[i].node_id());
        if j != i {
            assert(f2[j].node_id() == f2[i].node_id());
        }
    }
    assert(f2 =~= f1);
}

/// A round trip no faster than the estimate leaves the estimate as it was
/// while the clock reading lies less than 15 seconds (15,000,000,000 ns)
/// after the last update, or before it.
pub proof fn law_ewma_slower_within_window_keeps(s: EwmaState, now: i64, rtt: i64)
    requires
        s.wf(),
        rtt >= s.cost(),
        now - s.stamp() < 15_000_000_000,
    ensures
        s.cost_after(now, rtt) == s.cost(),
{
}

/// A round trip faster than the estimate replaces it at once, whenever it
/// comes.
pub proof fn law_ewma_faster_replaces(s: EwmaState, now: i64, rtt: i64)
    requires
        s.wf(),
        rtt < s.cost(),
    ensures
        s.cost_after(now, rtt) == rtt,
{
}

/// A round trip no faster than the estimate replaces it once 15 seconds
/// (15,000,000,000 ns) or more have passed since the last update.
pub proof fn law_ewma_slower_after_window_replaces(s: EwmaState, now: i64, rtt: i64)
    requires
        s.wf(),
        rtt >= s.cost(),
        now - s.stamp() >= 15_000_000_000,
    ensures
        s.cost_after(now, rtt) == rtt,
{
}

/// Within 15 seconds (15,000,000,000 ns) of the last update the estimate
/// only ever falls: it becomes the smaller of itself and the round trip.
pub proof fn law_ewma_within_window_takes_minimum(s: EwmaState, now: i64, rtt: i64)
    requires
        s.wf(),
        now - s.stamp() < 15_000_000_000,
    ensures
        s.cost_after(now, rtt) == if rtt < s.cost() { rtt } else { s.cost() },
        s.cost_after(now, rtt) <= s.cost(),
{
}

/// With no request in flight, the load reported is the round-trip estimate.
pub proof fn law_ewma_idle_load_is_estimate(s: EwmaState)
    requires
        s.wf(),
        s.pending() == 0,
    ensures
        s.spec_load() == s.cost(),
{
    assert((s.pending() as i64) == 0);
    assert(s.cost() * 1 == s.cost());
}

/// While no round trip has been measured, a server with requests in flight
/// reports 1,073,741,823 (half of `i32::MAX`, rounded down) plus the number
/// of requests in flight.
pub proof fn law_ewma_unmeasured_load(s: EwmaState)
    requires
        s.wf(),
        s.cost() == 0,
        s.pending() > 0,
        s.pending() <= i64::MAX,
    ensures
        s.spec_load() == 1_073_741_823 + s.pending(),
{
}

/// Once a round trip is measured, each further request in flight adds one
/// estimate to the load reported.
pub proof fn law_ewma_load_grows_by_estimate(s: EwmaState, t: EwmaState)
    requires
        s.wf(),
        t.wf(),
        s.cost() == t.cost(),
        s.cost() > 0,
        t.pending() == s.pending() + 1,
        s.pending() < i64::MAX,
        t.pending() < i64::MAX,
    ensures
        t.spec_load() == s.spec_load() + s.cost(),
{
    assert(s.cost() * ((t.pending() as i64) + 1) == s.cost() * ((s.pending() as i64) + 1) + s.cost()) by (nonlinear_arith)
        requires
            (t.pending() as i64) == (s.pending() as i64) + 1,
    ;
}

/// Filtering by a predicate that every entry meets keeps every entry.
proof fn lemma_filter_all<N: Node>(s: Seq<N>, p: spec_fn(u64) -> bool)
    requires
        forall|k: int| 0 <= k < s.len() ==> #[trigger] p(s[k].node_id()),
    ensures
        filter_by_id(s, p) == s,
    decreases s.len(),
{
    reveal(Seq::filter);
    if s.len() > 0 {
        let d = s.drop_last();
        assert forall|k: int| 0 <= k < d.len() implies #[trigger] p(d[k].node_id()) by {
            assert(d[k] == s[k]);
        }
        lemma_filter_all(d, p);
        assert(p(s[s.len() - 1].node_id()));
        assert(d.push(s.last()) =~= s);
    }
}

} // verus!
