//! The per-channel resolve phases and the dependency resolver that orders
//! them across channels.

use vstd::prelude::*;

use crate::channel::{dep_of, ChannelModel};
use vstd::set_lib::{lemma_int_range, lemma_len_subset, set_int_range};

verus! {

/// The fine-grained system of phases of one channel's resolve handling in a
/// tick, an explicit closed set with a static order. `Resolve` contains
/// `Compute`, `Trigger` and `Flush`, in that order; `Flush` contains `Exit`,
/// `Trans` and `Enter`, in that order, each paired with the enablement-gated
/// any-hook phase that runs inside it.
#[derive(Clone, Copy, Debug, Hash, PartialEq, Eq, Structural)]
pub enum ResolveStateSet {
    /// Resolve the state flush logic for the channel.
    Resolve,
    /// Optionally compute the pending value.
    Compute,
    /// Decide whether to trigger a flush.
    Trigger,
    /// Run on-flush hooks.
    Flush,
    /// Run on-exit hooks.
    Exit,
    /// Run on-transition hooks.
    Trans,
    /// Run on-enter hooks.
    Enter,
    /// Run global on-flush hooks.
    AnyFlush,
    /// Run global on-exit hooks.
    AnyExit,
    /// Run global on-transition hooks.
    AnyTrans,
    /// Run global on-enter hooks.
    AnyEnter,
}

/// A declared dependency edge: channel `a`'s resolve phase must entirely
/// precede channel `b`'s. An edge is declared by `b` listing `a` in its
/// after-list, by `a` listing `b` in its before-list, or implicitly by `b`'s
/// compute rule reading `a`'s pending value.
#[verifier::opaque]
pub open spec fn edge(ts: Seq<ChannelModel>, a: int, b: int) -> bool {
    &&& 0 <= a < ts.len()
    &&& 0 <= b < ts.len()
    &&& {
        ||| ts[b].after.contains(a as usize)
        ||| ts[a].before.contains(b as usize)
        ||| dep_of(ts[b].compute) == Some(a as usize)
    }
}

/// An edge only relates channels in range.
pub proof fn lemma_edge_bounds(ts: Seq<ChannelModel>, a: int, b: int)
    requires
        edge(ts, a, b),
    ensures
        0 <= a < ts.len(),
        0 <= b < ts.len(),
{
    reveal(edge);
}

/// A valid resolve order: a permutation of the channel indices in which
/// every declared edge points forward.
pub open spec fn valid_order(ts: Seq<ChannelModel>, order: Seq<usize>) -> bool {
    &&& order.len() == ts.len()
    &&& forall|k: int| 0 <= k < order.len() ==> ((#[trigger] order[k]) as int) < ts.len()
    &&& forall|k1: int, k2: int|
        0 <= k1 < order.len() && 0 <= k2 < order.len() && k1 != k2 ==> #[trigger] order[k1]
            != #[trigger] order[k2]
    &&& forall|i: usize| (i as int) < ts.len() ==> #[trigger] order.contains(i)
    &&& forall|k1: int, k2: int|
        0 <= k1 < order.len() && 0 <= k2 < order.len() && edge(
            ts,
            (#[trigger] order[k1]) as int,
            (#[trigger] order[k2]) as int,
        ) ==> k1 < k2
}

/// Whether some valid resolve order exists; equivalent to the declared edge
/// set being acyclic.
#[verifier::opaque]
pub open spec fn resolvable(ts: Seq<ChannelModel>) -> bool {
    exists|order: Seq<usize>| valid_order(ts, order)
}

/// A certificate that no valid order exists: a non-empty set of channels in
/// which every member waits on another member.
pub open spec fn stuck_set(ts: Seq<ChannelModel>, s: Set<int>) -> bool {
    &&& exists|b: int| s.contains(b)
    &&& forall|b: int| s.contains(b) ==> 0 <= b < ts.len()
    &&& forall|b: int| #[trigger] s.contains(b) ==> exists|a: int| s.contains(a) && edge(ts, a, b)
}

/// No member of a stuck set can appear anywhere in a valid order: whatever
/// position it held, some other member would have to stand even earlier.
#[verifier::rlimit(50)]
#[verifier::spinoff_prover]
proof fn lemma_stuck_not_in_order(ts: Seq<ChannelModel>, s: Set<int>, order: Seq<usize>, k: int)
    requires
        ts.len() <= usize::MAX,
        stuck_set(ts, s),
        valid_order(ts, order),
        0 <= k < order.len(),
    ensures
        !s.contains(order[k] as int),
    decreases k,
{
    if s.contains(order[k] as int) {
        let b = order[k] as int;
        let a = choose|a: int| s.contains(a) && edge(ts, a, b);
        assert(s.contains(a));
        assert(0 <= a < ts.len());
        assert(order.contains(a as usize));
        let ka = choose|ka: int| 0 <= ka < order.len() && order[ka] == a as usize;
        assert(order[ka] as int == a);
        assert(edge(ts, order[ka] as int, order[k] as int));
        assert(ka < k);
        lemma_stuck_not_in_order(ts, s, order, ka);
    }
}

/// A stuck set refutes every candidate order: the declared edges admit no
/// valid resolve order at all.
#[verifier::rlimit(50)]
#[verifier::spinoff_prover]
pub proof fn lemma_stuck_set_unresolvable(ts: Seq<ChannelModel>, s: Set<int>)
    requires
        ts.len() <= usize::MAX,
        stuck_set(ts, s),
    ensures
        !resolvable(ts),
{
    reveal(resolvable);
    if resolvable(ts) {
        let order = choose|order: Seq<usize>| valid_order(ts, order);
        let b = choose|b: int| s.contains(b);
        assert(0 <= b < ts.len());
        assert(order.contains(b as usize));
        let kb = choose|kb: int| 0 <= kb < order.len() && order[kb] == b as usize;
        assert(order[kb] as int == b);
        lemma_stuck_not_in_order(ts, s, order, kb);
        assert(!s.contains(order[kb] as int));
    }
}

/// Channel `j` is ready to be placed in the resolve order when every channel
/// it must follow has already been placed.
pub open spec fn ready(ts: Seq<ChannelModel>, placed: Seq<bool>, j: int) -> bool {
    forall|a: int| #[trigger] edge(ts, a, j) ==> placed[a]
}

/// A sequence that contains every index below `n` has at least `n` elements.
#[verifier::spinoff_prover]
pub(crate) proof fn lemma_contains_all_len(ord: Seq<usize>, n: int)
    requires
        0 <= n <= usize::MAX,
        forall|i: usize| (i as int) < n ==> #[trigger] ord.contains(i),
    ensures
        ord.len() >= n,
{
    broadcast use vstd::seq_lib::seq_to_set_is_finite;

    let m = ord.map_values(|x: usize| x as int);
    assert forall|b: int| set_int_range(0, n).contains(b) implies m.to_set().contains(b) by {
        let i = b as usize;
        assert(ord.contains(i));
        let k = choose|k: int| 0 <= k < ord.len() && ord[k] == i;
        assert(m[k] == b);
        assert(m.contains(b));
    };
    assert(set_int_range(0, n).subset_of(m.to_set()));
    m.lemma_cardinality_of_set();
    lemma_len_subset(set_int_range(0, n), m.to_set());
    lemma_int_range(0, n);
}

/// A duplicate-free sequence of indices below `n` has at most `n` elements.
#[verifier::spinoff_prover]
pub(crate) proof fn lemma_distinct_bounded_len(ord: Seq<usize>, n: int)
    requires
        0 <= n <= usize::MAX,
        ord.no_duplicates(),
        forall|k: int| 0 <= k < ord.len() ==> ((#[trigger] ord[k]) as int) < n,
    ensures
        ord.len() <= n,
{
    broadcast use vstd::seq_lib::seq_to_set_is_finite;

    let m = ord.map_values(|x: usize| x as int);
    assert(m.no_duplicates());
    assert forall|b: int| m.to_set().contains(b) implies set_int_range(0, n).contains(b) by {
        let k = choose|k: int| 0 <= k < m.len() && m[k] == b;
        assert(ord[k] as int == b);
    };
    lemma_int_range(0, n);
    lemma_len_subset(m.to_set(), set_int_range(0, n));
    m.unique_seq_to_set();
}

/// A duplicate-free sequence of `n` indices, each below `n`, contains every
/// index below `n`.
#[verifier::spinoff_prover]
pub(crate) proof fn lemma_distinct_bounded_full(ord: Seq<usize>, n: int)
    requires
        0 <= n <= usize::MAX,
        ord.no_duplicates(),
        forall|k: int| 0 <= k < ord.len() ==> ((#[trigger] ord[k]) as int) < n,
        ord.len() == n,
    ensures
        forall|i: usize| (i as int) < n ==> #[trigger] ord.contains(i),
{
    broadcast use vstd::seq_lib::seq_to_set_is_finite;
    broadcast use vstd::set::group_set_axioms;

    assert forall|i: usize| (i as int) < n implies ord.contains(i) by {
        if !ord.contains(i) {
            let m = ord.map_values(|x: usize| x as int);
            assert(m.no_duplicates());
            assert forall|b: int| m.to_set().contains(b) implies set_int_range(0, n).remove(
                i as int,
            ).contains(b) by {
                let k = choose|k: int| 0 <= k < m.len() && m[k] == b;
                assert(ord[k] as int == b);
                assert(ord[k] != i);
            };
            lemma_int_range(0, n);
            assert(set_int_range(0, n).contains(i as int));
            lemma_len_subset(m.to_set(), set_int_range(0, n).remove(i as int));
            m.unique_seq_to_set();
            assert(false);
        }
    };
}

/// Every placed channel stands somewhere in the order.
#[verifier::opaque]
pub(crate) open spec fn placed_in_order(ord: Seq<usize>, placed: Seq<bool>, n: int) -> bool {
    forall|u: usize| (u as int) < n && placed[u as int] ==> #[trigger] ord.contains(u)
}

/// Every edge into a channel in the order comes from a channel that stands
/// earlier in the order.
#[verifier::opaque]
pub(crate) open spec fn closed_under_edges(ts: Seq<ChannelModel>, ord: Seq<usize>) -> bool {
    forall|k: int, a: int|
        0 <= k < ord.len() && #[trigger] edge(ts, a, (ord[k]) as int) ==> exists|kp: int|
            0 <= kp < k && ord[kp] as int == a
}

/// Invariant of the resolver while it grows a partial order: the placed
/// flags mirror the order's contents, the order is duplicate free and in
/// range, and every edge into a placed channel comes from a channel placed
/// earlier.
pub(crate) open spec fn partial_order_inv(
    ts: Seq<ChannelModel>,
    ord: Seq<usize>,
    placed: Seq<bool>,
) -> bool {
    &&& placed.len() == ts.len()
    &&& ord.no_duplicates()
    &&& forall|k: int| 0 <= k < ord.len() ==> ((#[trigger] ord[k]) as int) < ts.len()
    &&& forall|k: int| 0 <= k < ord.len() ==> placed[(#[trigger] ord[k]) as int]
    &&& placed_in_order(ord, placed, ts.len() as int)
    &&& closed_under_edges(ts, ord)
}

/// The invariant holds of an empty order with no placed flags set.
#[verifier::spinoff_prover]
pub(crate) proof fn lemma_empty_inv(ts: Seq<ChannelModel>, placed: Seq<bool>)
    requires
        placed.len() == ts.len(),
        forall|p: int| 0 <= p < placed.len() ==> !placed[p],
    ensures
        partial_order_inv(ts, Seq::<usize>::empty(), placed),
{
    reveal(placed_in_order);
    reveal(closed_under_edges);
}

/// An unplaced channel does not yet stand in the order.
#[verifier::spinoff_prover]
proof fn lemma_unplaced_not_in_order(ord: Seq<usize>, placed: Seq<bool>, i: usize)
    requires
        forall|k: int| 0 <= k < ord.len() ==> placed[(#[trigger] ord[k]) as int],
        !placed[i as int],
    ensures
        !ord.contains(i),
{
    assert forall|j: int| 0 <= j < ord.len() implies ord[j] != i by {
        assert(placed[(ord[j]) as int]);
    };
}

/// Appending a fresh element keeps a sequence duplicate free.
#[verifier::spinoff_prover]
proof fn lemma_push_no_duplicates(ord: Seq<usize>, i: usize)
    requires
        ord.no_duplicates(),
        !ord.contains(i),
    ensures
        ord.push(i).no_duplicates(),
{
    let ord2 = ord.push(i);
    assert forall|k1: int, k2: int|
        0 <= k1 < ord2.len() && 0 <= k2 < ord2.len() && k1 != k2 implies ord2[k1] != ord2[k2] by {
        if k1 < ord.len() && k2 < ord.len() {
            assert(ord2[k1] == ord[k1]);
            assert(ord2[k2] == ord[k2]);
        } else if k2 == ord.len() && k1 < ord.len() {
            if ord[k1] == i {
                assert(ord.contains(i));
            }
        } else if k1 == ord.len() && k2 < ord.len() {
            if ord[k2] == i {
                assert(ord.contains(i));
            }
        }
    };
}

/// Appending a placed channel keeps the flags mirroring the order.
#[verifier::spinoff_prover]
proof fn lemma_push_flags(ord: Seq<usize>, placed: Seq<bool>, i: usize, n: int)
    requires
        placed.len() == n,
        (i as int) < n,
        forall|k: int| 0 <= k < ord.len() ==> ((#[trigger] ord[k]) as int) < n,
        forall|k: int| 0 <= k < ord.len() ==> placed[(#[trigger] ord[k]) as int],
        placed_in_order(ord, placed, n),
    ensures
        forall|k: int|
            0 <= k < ord.push(i).len() ==> placed.update(i as int, true)[(#[trigger] ord.push(
                i,
            )[k]) as int],
        placed_in_order(ord.push(i), placed.update(i as int, true), n),
{
    reveal(placed_in_order);
    let ord2 = ord.push(i);
    let placed2 = placed.update(i as int, true);
    assert forall|k: int| 0 <= k < ord2.len() implies placed2[(#[trigger] ord2[k]) as int] by {
        if k < ord.len() {
            assert(ord2[k] == ord[k]);
            assert(placed[(ord[k]) as int]);
        } else {
            assert(ord2[k] == i);
        }
    };
    assert forall|u: usize| (u as int) < n && placed2[u as int] implies #[trigger] ord2.contains(
        u,
    ) by {
        if u == i {
            assert(ord2[ord2.len() - 1] == i);
        } else {
            assert(placed[u as int]);
            assert(ord.contains(u));
            let k = choose|k: int| 0 <= k < ord.len() && ord[k] == u;
            assert(ord2[k] == u);
        }
    };
}

/// Appending a ready channel keeps every edge pointing backward.
#[verifier::spinoff_prover]
proof fn lemma_push_closure(ts: Seq<ChannelModel>, ord: Seq<usize>, placed: Seq<bool>, i: usize)
    requires
        ts.len() <= usize::MAX,
        placed.len() == ts.len(),
        placed_in_order(ord, placed, ts.len() as int),
        closed_under_edges(ts, ord),
        ready(ts, placed, i as int),
    ensures
        closed_under_edges(ts, ord.push(i)),
{
    reveal(placed_in_order);
    reveal(closed_under_edges);
    let ord2 = ord.push(i);
    assert forall|k: int, a: int|
        0 <= k < ord2.len() && #[trigger] edge(ts, a, (ord2[k]) as int) implies exists|kp: int|
        0 <= kp < k && ord2[kp] as int == a by {
        if k < ord.len() {
            assert(ord2[k] == ord[k]);
            assert(edge(ts, a, (ord[k]) as int));
            assert(exists|kp: int| 0 <= kp < k && ord[kp] as int == a);
            let kp = choose|kp: int| 0 <= kp < k && ord[kp] as int == a;
            assert(0 <= kp < k);
            assert(ord[kp] as int == a);
            assert(ord2[kp] == ord[kp]);
            assert(ord2[kp] as int == a);
        } else {
            assert(ord2[k] == i);
            assert(edge(ts, a, i as int));
            lemma_edge_bounds(ts, a, i as int);
            assert(placed[a]);
            assert(ord.contains(a as usize));
            let kp = choose|kp: int| 0 <= kp < ord.len() && ord[kp] == a as usize;
            assert(ord2[kp] as int == a);
        }
    };
}

/// Placing a ready, unplaced channel preserves the resolver invariant.
#[verifier::spinoff_prover]
pub(crate) proof fn lemma_place_one(
    ts: Seq<ChannelModel>,
    ord: Seq<usize>,
    placed: Seq<bool>,
    i: usize,
)
    requires
        ts.len() <= usize::MAX,
        partial_order_inv(ts, ord, placed),
        (i as int) < ts.len(),
        !placed[i as int],
        ready(ts, placed, i as int),
    ensures
        ord.len() < ts.len(),
        partial_order_inv(ts, ord.push(i), placed.update(i as int, true)),
{
    let n = ts.len() as int;
    lemma_unplaced_not_in_order(ord, placed, i);
    lemma_distinct_bounded_len(ord, n);
    assert(ord.len() < n) by {
        if ord.len() == n {
            lemma_distinct_bounded_full(ord, n);
            assert(ord.contains(i));
        }
    };
    lemma_push_no_duplicates(ord, i);
    lemma_push_flags(ord, placed, i, n);
    lemma_push_closure(ts, ord, placed, i);
}

/// A complete partial order is a valid resolve order.
#[verifier::spinoff_prover]
pub(crate) proof fn lemma_completed_valid(ts: Seq<ChannelModel>, ord: Seq<usize>, placed: Seq<bool>)
    requires
        ts.len() <= usize::MAX,
        partial_order_inv(ts, ord, placed),
        ord.len() == ts.len(),
    ensures
        valid_order(ts, ord),
{
    reveal(closed_under_edges);
    lemma_distinct_bounded_full(ord, ts.len() as int);
    assert forall|k1: int, k2: int|
        0 <= k1 < ord.len() && 0 <= k2 < ord.len() && edge(
            ts,
            (ord[k1]) as int,
            (ord[k2]) as int,
        ) implies k1 < k2 by {
        assert(exists|kp: int| 0 <= kp < k2 && ord[kp] as int == ord[k1] as int);
        let kp = choose|kp: int| 0 <= kp < k2 && ord[kp] as int == ord[k1] as int;
        assert(ord[kp] == ord[k1]);
        assert(kp == k1);
    };
}

/// When every placed flag is set, the order already covers every channel.
#[verifier::spinoff_prover]
pub(crate) proof fn lemma_all_placed_complete(
    ts: Seq<ChannelModel>,
    ord: Seq<usize>,
    placed: Seq<bool>,
)
    requires
        ts.len() <= usize::MAX,
        partial_order_inv(ts, ord, placed),
        forall|j: int| 0 <= j < placed.len() ==> placed[j],
    ensures
        ord.len() >= ts.len(),
{
    reveal(placed_in_order);
    let n = ts.len() as int;
    assert forall|p: usize| (p as int) < n implies #[trigger] ord.contains(p) by {
        assert(placed[p as int]);
        assert(ord.contains(p));
    };
    lemma_contains_all_len(ord, n);
}

/// The set of channels whose placed flag is unset.
pub(crate) open spec fn unplaced_set(placed: Seq<bool>, n: int) -> Set<int> {
    Set::new(|b: int| 0 <= b < n && !placed[b])
}

/// When some channel is unplaced and no unplaced channel is ready, the
/// unplaced channels form a stuck set.
#[verifier::spinoff_prover]
pub(crate) proof fn lemma_unready_stuck(ts: Seq<ChannelModel>, placed: Seq<bool>, u: usize)
    requires
        placed.len() == ts.len(),
        (u as int) < ts.len(),
        !placed[u as int],
        forall|j: int| 0 <= j < ts.len() && !placed[j] ==> !ready(ts, placed, j),
    ensures
        stuck_set(ts, unplaced_set(placed, ts.len() as int)),
{
    let n = ts.len() as int;
    let s = unplaced_set(placed, n);
    assert(s.contains(u as int));
    assert forall|b: int| #[trigger] s.contains(b) implies exists|a: int|
        s.contains(a) && edge(ts, a, b) by {
        assert(0 <= b < n && !placed[b]);
        assert(!ready(ts, placed, b));
        let a = choose|a: int| edge(ts, a, b) && !placed[a];
        lemma_edge_bounds(ts, a, b);
        assert(s.contains(a));
    };
}

/// When some channel is unplaced and no unplaced channel is ready, the
/// declared edges are unsatisfiable.
#[verifier::spinoff_prover]
pub(crate) proof fn lemma_no_progress_stuck(ts: Seq<ChannelModel>, placed: Seq<bool>, u: usize)
    requires
        ts.len() <= usize::MAX,
        placed.len() == ts.len(),
        (u as int) < ts.len(),
        !placed[u as int],
        forall|j: int| 0 <= j < ts.len() && !placed[j] ==> !ready(ts, placed, j),
    ensures
        !resolvable(ts),
{
    lemma_unready_stuck(ts, placed, u);
    lemma_stuck_set_unresolvable(ts, unplaced_set(placed, ts.len() as int));
}

/// Whether a vector of indices contains a given index.
pub(crate) fn vec_contains_usize(v: &Vec<usize>, x: usize) -> (r: bool)
    ensures
        r == v@.contains(x),
{
    let n = v.len();
    let mut k: usize = 0;
    while k < n
        invariant
            k <= n,
            n == v@.len(),
            forall|kk: int| 0 <= kk < k ==> v@[kk] != x,
        decreases n - k,
    {
        if v[k] == x {
            return true;
        }
        k = k + 1;
    }
    false
}

/// Overwrite one element of a vector of flags.
pub(crate) fn set_bool(v: &mut Vec<bool>, i: usize, b: bool)
    requires
        i < old(v)@.len(),
    ensures
        final(v)@ == old(v)@.update(i as int, b),
{
    let _old = v.remove(i);
    v.insert(i, b);
    proof {
        assert(v@ =~= old(v)@.update(i as int, b));
    }
}

} // verus!
