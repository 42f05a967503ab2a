//! Sequences of nodes ordered and kept unique by identity.

use vstd::prelude::*;

use crate::node::Node;

verus! {

/// An index as a mathematical integer.
#[verifier::inline]
pub open spec fn wide(i: usize) -> int {
    i as int
}

/// The identities in `s` never decrease from left to right.
pub open spec fn ids_sorted<N: Node>(s: Seq<N>) -> bool {
    forall|i: int, j: int| 0 <= i < j < s.len() ==> s[i].node_id() <= s[j].node_id()
}

/// No two entries of `s` share an identity.
pub open spec fn ids_distinct<N: Node>(s: Seq<N>) -> bool {
    forall|i: int, j: int| 0 <= i < j < s.len() ==> s[i].node_id() != s[j].node_id()
}

/// Some entry of `s` has identity `id`.
pub open spec fn holds_id<N: Node>(s: Seq<N>, id: u64) -> bool {
    exists|i: int| 0 <= i < s.len() && s[i].node_id() == id
}

/// `x` placed into `s` after every entry whose identity is not above its own
/// and before the entries above it; for a sorted `s` the result is sorted.
pub open spec fn sorted_insert<N: Node>(s: Seq<N>, x: N) -> Seq<N>
    decreases s.len(),
{
    if s.len() == 0 {
        seq![x]
    } else if s.last().node_id() <= x.node_id() {
        s.push(x)
    } else {
        sorted_insert(s.drop_last(), x).push(s.last())
    }
}

/// `sorted_insert` places `x` at the split point between the entries not
/// above it and the entries above it.
pub proof fn lemma_sorted_insert_at<N: Node>(s: Seq<N>, x: N, k: int)
    requires
        0 <= k <= s.len(),
        forall|i: int| 0 <= i < k ==> #[trigger] s[i].node_id() <= x.node_id(),
        forall|i: int| k <= i < s.len() ==> #[trigger] s[i].node_id() > x.node_id(),
    ensures
        sorted_insert(s, x) == s.insert(k, x),
    decreases s.len(),
{
    if s.len() == 0 {
        assert(s.insert(k, x) =~= seq![x]);
    } else if s.last().node_id() <= x.node_id() {
        assert(k == s.len());
        assert(s.insert(k, x) =~= s.push(x));
    } else {
        let d = s.drop_last();
        lemma_sorted_insert_at(d, x, k);
        assert(d.insert(k, x).push(s.last()) =~= s.insert(k, x));
    }
}

} // verus!

verus! {

/// The identities other than `id`.
pub open spec fn id_other_than(id: u64) -> spec_fn(u64) -> bool {
    |i: u64| i != id
}

/// The identities that some entry of `s` has.
pub open spec fn id_held_by<N: Node>(s: Seq<N>) -> spec_fn(u64) -> bool {
    |i: u64| holds_id(s, i)
}

/// The entries of `s` whose identity satisfies `p`, in order.
pub open spec fn filter_by_id<N: Node>(s: Seq<N>, p: spec_fn(u64) -> bool) -> Seq<N> {
    s.filter(|n: N| p(n.node_id()))
}

/// `x` added to `s` unless an entry with its identity is there already:
/// in order of identity when `sorted`, else at the end.
pub open spec fn listed_add<N: Node>(s: Seq<N>, x: N, sorted: bool) -> Seq<N> {
    if holds_id(s, x.node_id()) {
        s
    } else if sorted {
        sorted_insert(s, x)
    } else {
        s.push(x)
    }
}

/// Each entry of `xs` added to `s` in turn with `listed_add`.
pub open spec fn listed_add_all<N: Node>(s: Seq<N>, xs: Seq<N>, sorted: bool) -> Seq<N>
    decreases xs.len(),
{
    if xs.len() == 0 {
        s
    } else {
        listed_add(listed_add_all(s, xs.drop_last(), sorted), xs.last(), sorted)
    }
}

/// Inserting an entry whose identity is new keeps identities distinct.
pub proof fn lemma_insert_distinct<N: Node>(s: Seq<N>, k: int, x: N)
    requires
        ids_distinct(s),
        !holds_id(s, x.node_id()),
        0 <= k <= s.len(),
    ensures
        ids_distinct(s.insert(k, x)),
{
    let t = s.insert(k, x);
    assert forall|a: int, b: int| 0 <= a < b < t.len() implies #[trigger] t[a].node_id()
        != #[trigger] t[b].node_id() by {
        if a == k {
            assert(t[b] == s[b - 1]);
        } else if b == k {
            assert(t[a] == s[a]);
        } else {
            let sa = if a < k { a } else { a - 1 };
            let sb = if b < k { b } else { b - 1 };
            assert(t[a] == s[sa]);
            assert(t[b] == s[sb]);
        }
    }
}

/// Removing an entry keeps identities distinct and sorted.
pub proof fn lemma_remove_keeps_order<N: Node>(s: Seq<N>, i: int)
    requires
        0 <= i < s.len(),
    ensures
        ids_distinct(s) ==> ids_distinct(s.remove(i)),
        ids_sorted(s) ==> ids_sorted(s.remove(i)),
{
    let t = s.remove(i);
    assert forall|a: int, b: int| 0 <= a < b < t.len() implies {
        &&& t[a] == s[if a < i { a } else { a + 1 }]
        &&& t[b] == s[if b < i { b } else { b + 1 }]
    } by {}
}

/// An insertion into a sorted sequence with distinct identities that leaves it
/// sorted is `sorted_insert`.
pub proof fn lemma_sorted_insert_unique<N: Node>(s: Seq<N>, k: int, x: N)
    requires
        ids_distinct(s),
        !holds_id(s, x.node_id()),
        0 <= k <= s.len(),
        ids_sorted(s.insert(k, x)),
    ensures
        sorted_insert(s, x) == s.insert(k, x),
{
    let t = s.insert(k, x);
    assert forall|i: int| 0 <= i < k implies #[trigger] s[i].node_id() <= x.node_id() by {
        assert(t[i] == s[i]);
        assert(t[k] == x);
    }
    assert forall|i: int| k <= i < s.len() implies #[trigger] s[i].node_id() > x.node_id() by {
        assert(t[i + 1] == s[i]);
        assert(t[k] == x);
        assert(s[i].node_id() != x.node_id());
    }
    lemma_sorted_insert_at(s, x, k);
}

/// The place in a sorted sequence that separates the identities below `id`
/// from the others.
proof fn split_point<N: Node>(s: Seq<N>, id: u64) -> (j: int)
    requires
        ids_sorted(s),
    ensures
        0 <= j <= s.len(),
        forall|i: int| 0 <= i < j ==> #[trigger] s[i].node_id() < id,
        forall|i: int| j <= i < s.len() ==> #[trigger] s[i].node_id() >= id,
    decreases s.len(),
{
    if s.len() == 0 {
        0
    } else if s.last().node_id() < id {
        s.len() as int
    } else {
        let d = s.drop_last();
        assert(ids_sorted(d)) by {
            assert forall|a: int, b: int| 0 <= a < b < d.len() implies #[trigger] d[a].node_id()
                <= #[trigger] d[b].node_id() by {
                assert(d[a] == s[a] && d[b] == s[b]);
            }
        }
        let j = split_point(d, id);
        assert forall|i: int| j <= i < s.len() implies #[trigger] s[i].node_id() >= id by {
            if i < d.len() {
                assert(d[i] == s[i]);
            }
        }
        assert forall|i: int| 0 <= i < j implies #[trigger] s[i].node_id() < id by {
            assert(d[i] == s[i]);
        }
        j
    }
}

/// `sorted_insert` of a new identity keeps a sorted sequence sorted and its
/// identities distinct.
pub proof fn lemma_sorted_insert_order<N: Node>(s: Seq<N>, x: N)
    requires
        ids_distinct(s),
        ids_sorted(s),
        !holds_id(s, x.node_id()),
    ensures
        ids_distinct(sorted_insert(s, x)),
        ids_sorted(sorted_insert(s, x)),
{
    let j = split_point(s, x.node_id());
    assert forall|i: int| j <= i < s.len() implies #[trigger] s[i].node_id() > x.node_id() by {
        assert(s[j].node_id() <= s[i].node_id());
        assert(s[i].node_id() != x.node_id());
        assert(s[j].node_id() != x.node_id());
    }
    lemma_sorted_insert_at(s, x, j);
    lemma_insert_distinct(s, j, x);
    let t = s.insert(j, x);
    assert forall|a: int, b: int| 0 <= a < b < t.len() implies #[trigger] t[a].node_id()
        <= #[trigger] t[b].node_id() by {
        if a == j {
            assert(t[b] == s[b - 1]);
        } else if b == j {
            assert(t[a] == s[a]);
        } else {
            let sa = if a < j { a } else { a - 1 };
            let sb = if b < j { b } else { b - 1 };
            assert(t[a] == s[sa]);
            assert(t[b] == s[sb]);
        }
    }
}

/// `listed_add` keeps identities distinct, and sorted when it sorts.
pub proof fn lemma_listed_add_order<N: Node>(s: Seq<N>, x: N, sorted: bool)
    requires
        ids_distinct(s),
        sorted ==> ids_sorted(s),
    ensures
        ids_distinct(listed_add(s, x, sorted)),
        sorted ==> ids_sorted(listed_add(s, x, sorted)),
{
    if !holds_id(s, x.node_id()) {
        if sorted {
            lemma_sorted_insert_order(s, x);
        } else {
            lemma_insert_distinct(s, s.len() as int, x);
            assert(s.insert(s.len() as int, x) =~= s.push(x));
        }
    }
}

/// Moving one entry of a sequence to another place keeps its multiset.
pub proof fn lemma_move_to_multiset<A>(s: Seq<A>, i: int, k: int)
    requires
        0 <= i < s.len(),
        0 <= k <= i,
    ensures
        s.remove(i).insert(k, s[i]).to_multiset() == s.to_multiset(),
{
    broadcast use vstd::seq_lib::group_to_multiset_ensures;

    let r = s.remove(i);
    let t = r.insert(k, s[i]);
    assert(t.remove(k) =~= r);
    assert(t[k] == s[i]);
    assert(t.to_multiset().remove(s[i]) == r.to_multiset());
    assert(r.to_multiset() == s.to_multiset().remove(s[i]));
    assert(s.to_multiset().count(s[i]) > 0) by {
        assert(s.contains(s[i]));
    }
    assert(t.to_multiset().count(s[i]) > 0) by {
        assert(t.contains(s[i]));
    }
    assert(t.to_multiset() =~= s.to_multiset()) by {
        assert forall|a: A| t.to_multiset().count(a) == s.to_multiset().count(a) by {
            if a == s[i] {
            } else {
            }
        }
    }
}

} // verus!
