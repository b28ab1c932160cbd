//! The protocol's guarantees, proved of the model.
//!
//! Each lemma here is stated over the transitions of [`crate::model`], which
//! every operation of [`crate::cell::RcuCell`] is proved to follow, so these
//! hold of any sequence of operations on a cell.

use vstd::multiset::Multiset;
use vstd::prelude::*;

use crate::model::{
    allocated, free_at, lemma_acquire, lemma_install, lemma_release, num_live, step_acquire,
    step_install, step_release, value_at, CellV, WordV,
};

verus! {

broadcast use vstd::multiset::group_multiset_axioms, vstd::multiset::group_multiset_properties;

/// No use-after-free: the pointer captured by any outstanding guard names a
/// live allocation, so dereferencing the guard reads an allocation that has
/// not been freed.
pub proof fn lemma_guard_live<T>(m: CellV<T>, p: nat)
    requires
        m.wf(),
        m.guards.count(p) >= 1,
    ensures
        allocated(m.heap, p),
{
    assert(m.tracks(p));
    if p != m.latest.ptr && p != m.to_clear.ptr {
        let i = choose|i: int| 0 <= i < m.retiring.len() && (#[trigger] m.retiring[i]).ptr == p;
        assert(allocated(m.heap, m.retiring[i].ptr));
    }
}

/// Drain precedes free: an allocation with any guard still outstanding
/// survives every operation — an installation, an acquisition, or the
/// release of any (other) guard.  A slot is freed only once no guard
/// references it, which is the drain of its counter.
pub proof fn lemma_guarded_survives_step<T>(m: CellV<T>, q: nat, v: T, p: nat)
    requires
        m.wf(),
        allocated(m.heap, q),
    ensures
        m.guards.count(q) >= 1 ==> allocated(step_install(m, v).heap, q),
        m.guards.count(q) >= 1 ==> allocated(step_acquire(m).heap, q),
        m.guards.count(p) >= 1 && m.guards.remove(p).count(q) >= 1 ==> allocated(
            step_release(m, p).heap,
            q,
        ),
{
    if m.guards.count(q) >= 1 {
        lemma_install(m, v);
        assert(step_install(m, v).heap[q - 1] == m.heap[q - 1]);
        lemma_acquire(m);
    }
    if m.guards.count(p) >= 1 && m.guards.remove(p).count(q) >= 1 {
        lemma_release(m, p);
        assert(step_release(m, p).heap[q - 1] == m.heap[q - 1]);
    }
}

/// No double-free: a freed slot stays freed across every operation, and an
/// installation allocates a slot that was never used before, so no slot is
/// ever freed twice.
pub proof fn lemma_freed_stays_freed<T>(m: CellV<T>, j: int, v: T, p: nat)
    requires
        m.wf(),
        0 <= j < m.heap.len(),
        m.heap[j] is None,
    ensures
        step_install(m, v).heap[j] is None,
        step_acquire(m).heap[j] is None,
        m.guards.count(p) >= 1 ==> step_release(m, p).heap[j] is None,
{
    lemma_install(m, v);
    lemma_acquire(m);
    if m.guards.count(p) >= 1 {
        lemma_release(m, p);
    }
}

/// Counter accounting: each word's count is exactly the number of
/// outstanding guards for its pointer, and so never exceeds the number of
/// guards acquired and not yet released.
pub proof fn lemma_counter_accounting<T>(m: CellV<T>)
    requires
        m.wf(),
    ensures
        m.latest.cnt == m.guards.count(m.latest.ptr),
        m.latest.cnt <= m.guards.len(),
        m.to_clear.cnt <= m.guards.len(),
        forall|i: int|
            0 <= i < m.retiring.len() ==> (#[trigger] m.retiring[i]).cnt <= m.guards.len(),
{
    assert(m.guards.count(m.latest.ptr) <= m.guards.len());
    if m.to_clear.ptr != 0 {
        assert(m.guards.count(m.to_clear.ptr) <= m.guards.len());
    }
    assert forall|i: int|
        0 <= i < m.retiring.len() implies (#[trigger] m.retiring[i]).cnt <= m.guards.len() by {
        assert(m.guards.count(m.retiring[i].ptr) <= m.guards.len());
    }
}

/// Monotonic displacement: the pointers that have ever been `latest` are
/// pairwise distinct — a displaced allocation's address is never installed
/// again — and an installation extends the history by exactly one fresh
/// pointer.
pub proof fn lemma_monotonic_displacement<T>(m: CellV<T>, v: T)
    requires
        m.wf(),
    ensures
        forall|i: int, j: int| 0 <= i < j < m.hist.len() ==> m.hist[i] != m.hist[j],
        step_install(m, v).hist == m.hist.push((m.heap.len() + 1) as nat),
        forall|i: int| 0 <= i < m.hist.len() ==> m.hist[i] != (m.heap.len() + 1) as nat,
{
    lemma_install(m, v);
}

/// Slot exclusivity: at most one retiring allocation is named in the
/// retirement station, and a non-empty station names a live allocation that
/// is neither `latest` nor any parked word's.
pub proof fn lemma_slot_exclusivity<T>(m: CellV<T>)
    requires
        m.wf(),
    ensures
        m.to_clear.ptr != 0 ==> allocated(m.heap, m.to_clear.ptr),
        m.to_clear.ptr != 0 ==> m.to_clear.ptr != m.latest.ptr,
        forall|i: int|
            0 <= i < m.retiring.len() ==> (#[trigger] m.retiring[i]).ptr != m.to_clear.ptr,
{
}

/// Read-after-write visibility: once an installation of `v` has taken its
/// swap, the cell's current value is `v`, and an acquisition that follows
/// captures a pointer whose value is `v`.
pub proof fn lemma_read_after_write<T>(m: CellV<T>, v: T)
    requires
        m.wf(),
    ensures
        step_install(m, v).latest_value() == v,
        value_at(
            step_acquire(step_install(m, v)).heap,
            step_install(m, v).latest.ptr,
        ) == v,
{
    lemma_install(m, v);
    lemma_acquire(step_install(m, v));
}

/// Update composition: two read-modify-write installations made in
/// sequence compose — the cell then holds `g` applied to `f` applied to the
/// original value.
pub proof fn lemma_update_composition<T>(m: CellV<T>, f: spec_fn(T) -> T, g: spec_fn(T) -> T)
    requires
        m.wf(),
    ensures
        step_install(step_install(m, f(m.latest_value())), g(
            step_install(m, f(m.latest_value())).latest_value(),
        )).latest_value() == g(f(m.latest_value())),
{
    lemma_install(m, f(m.latest_value()));
    lemma_install(step_install(m, f(m.latest_value())), g(f(m.latest_value())));
}

/// The guards released one after another, in the order a sequence gives.
pub open spec fn release_seq<T>(m: CellV<T>, order: Seq<nat>) -> CellV<T>
    decreases order.len(),
{
    if order.len() == 0 {
        m
    } else {
        release_seq(step_release(m, order[0]), order.skip(1))
    }
}

/// The quiescent state a cell drains to: no guards, both retirement words
/// empty, and only the `latest` allocation live.
pub open spec fn drained_form<T>(m: CellV<T>) -> CellV<T> {
    CellV {
        heap: Seq::new(
            m.heap.len(),
            |j: int| if j == m.latest.ptr - 1 { m.heap[j] } else { None },
        ),
        latest: WordV { ptr: m.latest.ptr, cnt: 0 },
        to_clear: WordV::empty(),
        retiring: Seq::empty(),
        guards: Multiset::empty(),
        hist: m.hist,
    }
}

/// A well-formed state with no outstanding guards is quiescent.
pub proof fn lemma_quiescent_form<T>(m: CellV<T>)
    requires
        m.wf(),
        m.guards == Multiset::<nat>::empty(),
    ensures
        m == drained_form(m),
{
    assert(m.to_clear.ptr == 0);
    assert(m.retiring.len() == 0);
    assert(m.latest.cnt == 0);
    assert(m.latest == (WordV { ptr: m.latest.ptr, cnt: 0 }));
    assert forall|j: int| 0 <= j < m.heap.len() implies m.heap[j] == drained_form(m).heap[j] by {
        if j != m.latest.ptr - 1 {
            assert(!m.tracks((j + 1) as nat));
            assert(m.heap[j] is None);
        }
    }
    assert(m.heap =~= drained_form(m).heap);
    assert(m.retiring =~= drained_form(m).retiring);
    assert(m.to_clear == WordV::empty());
    assert(m == drained_form(m));
}

/// Releasing every outstanding guard, in whatever order, drains the cell to
/// its quiescent state.
pub proof fn lemma_release_all<T>(m: CellV<T>, order: Seq<nat>)
    requires
        m.wf(),
        order.to_multiset() == m.guards,
    ensures
        release_seq(m, order) == drained_form(m),
    decreases order.len(),
{
    broadcast use vstd::seq_lib::group_to_multiset_ensures;

    if order.len() == 0 {
        assert(m.guards.len() == 0);
        assert forall|q: nat| #[trigger] m.guards.count(q) == 0 by {
            assert(m.guards.count(q) <= m.guards.len());
        }
        assert(m.guards =~= Multiset::<nat>::empty());
        lemma_quiescent_form(m);
    } else {
        let p = order[0];
        assert(order.contains(p));
        assert(m.guards.count(p) >= 1);
        lemma_release(m, p);
        let m1 = step_release(m, p);
        assert(order.skip(1) =~= order.remove(0));
        assert(order.remove(0).to_multiset() == order.to_multiset().remove(order[0]));
        lemma_release_all(m1, order.skip(1));
        assert(m1.heap.len() == m.heap.len());
        assert(m1.latest.ptr == m.latest.ptr);
        assert(m1.hist == m.hist);
        assert(allocated(m.heap, m.latest.ptr));
        assert(allocated(m1.heap, m1.latest.ptr));
        assert(m1.heap[m1.latest.ptr - 1] == m.heap[m.latest.ptr - 1]) by {
            assert(m1.heap[m1.latest.ptr - 1] is Some);
            assert(m1.latest_value() == m.latest_value());
        }
        assert(drained_form(m1).heap =~= drained_form(m).heap);
        assert(drained_form(m1) == drained_form(m));
    }
}

/// A heap with no live slot has no live allocation.
pub proof fn lemma_num_live_all_none<T>(heap: Seq<Option<T>>)
    requires
        forall|j: int| 0 <= j < heap.len() ==> (#[trigger] heap[j]) is None,
    ensures
        num_live(heap) == 0,
    decreases heap.len(),
{
    if heap.len() > 0 {
        lemma_num_live_all_none(heap.drop_last());
    }
}

/// A heap whose single live slot is at `k` has one live allocation.
pub proof fn lemma_num_live_one_slot<T>(heap: Seq<Option<T>>, k: int)
    requires
        0 <= k < heap.len(),
        forall|j: int| 0 <= j < heap.len() ==> ((#[trigger] heap[j]) is Some <==> j == k),
    ensures
        num_live(heap) == 1,
    decreases heap.len(),
{
    if heap.len() == k + 1 {
        lemma_num_live_all_none(heap.drop_last());
    } else {
        lemma_num_live_one_slot(heap.drop_last(), k);
    }
}

/// Freeing one live slot lowers the number of live allocations by one.
pub proof fn lemma_num_live_free<T>(heap: Seq<Option<T>>, p: nat)
    requires
        allocated(heap, p),
    ensures
        num_live(free_at(heap, p)) == num_live(heap) - 1,
    decreases heap.len(),
{
    let f = free_at(heap, p);
    if p == heap.len() {
        assert(f.drop_last() =~= heap.drop_last());
        assert(f.last() is None);
    } else {
        assert(f.drop_last() =~= free_at(heap.drop_last(), p));
        assert(f.last() == heap.last());
        lemma_num_live_free(heap.drop_last(), p);
    }
}

/// No leaks, no double-free, in one count: the live allocations are exactly
/// those the cell's words still name — the current value, the one in the
/// retirement station, and one per parked word.  Every other allocation ever
/// made has been freed, each exactly once.
pub proof fn lemma_live_accounting<T>(m: CellV<T>)
    requires
        m.wf(),
    ensures
        num_live(m.heap) == 1 + (if m.to_clear.ptr != 0 {
            1int
        } else {
            0int
        }) + m.retiring.len(),
    decreases m.retiring.len() + (if m.to_clear.ptr != 0 { 1int } else { 0int }),
{
    if m.retiring.len() > 0 {
        let k = m.retiring.len() - 1;
        let w = m.retiring[k as int];
        let m2 = CellV {
            heap: free_at(m.heap, w.ptr),
            retiring: m.retiring.take(k as int),
            guards: m.guards.update(w.ptr, 0),
            ..m
        };
        assert(forall|i: int| 0 <= i < k ==> m2.retiring[i] == m.retiring[i]);
        assert forall|q: nat| #[trigger] m2.guards.count(q) > 0 implies m2.tracks(q) by {
            assert(q != w.ptr);
            assert(m.guards.count(q) > 0);
            assert(m.tracks(q));
            if q != m.latest.ptr && q != m.to_clear.ptr {
                let i = choose|i: int|
                    0 <= i < m.retiring.len() && (#[trigger] m.retiring[i]).ptr == q;
                assert(i < k);
                assert(m2.retiring[i].ptr == q);
            }
        }
        assert forall|j: int|
            0 <= j < m2.heap.len() implies ((#[trigger] m2.heap[j]) is Some <==> m2.tracks(
            (j + 1) as nat,
        )) by {
            let q = (j + 1) as nat;
            if q == w.ptr {
                assert(m2.heap[j] is None);
                assert(forall|i: int|
                    0 <= i < m2.retiring.len() ==> (#[trigger] m2.retiring[i]).ptr != q);
                assert(!m2.tracks(q));
            } else {
                assert(m2.heap[j] == m.heap[j]);
                assert(m.heap[j] is Some <==> m.tracks(q));
                if m.tracks(q) {
                    if q != m.latest.ptr && q != m.to_clear.ptr {
                        let i = choose|i: int|
                            0 <= i < m.retiring.len() && (#[trigger] m.retiring[i]).ptr == q;
                        assert(i < k);
                        assert(m2.retiring[i].ptr == q);
                    }
                    assert(m2.tracks(q));
                }
                if m2.tracks(q) {
                    if q != m.latest.ptr && q != m.to_clear.ptr {
                        let i = choose|i: int|
                            0 <= i < m2.retiring.len() && (#[trigger] m2.retiring[i]).ptr == q;
                        assert(m.retiring[i].ptr == q);
                    }
                    assert(m.tracks(q));
                }
            }
        }
        assert(m2.wf());
        lemma_num_live_free(m.heap, w.ptr);
        lemma_live_accounting(m2);
    } else if m.to_clear.ptr != 0 {
        let w = m.to_clear;
        let m2 = CellV {
            heap: free_at(m.heap, w.ptr),
            to_clear: WordV::empty(),
            guards: m.guards.update(w.ptr, 0),
            ..m
        };
        assert forall|q: nat| #[trigger] m2.guards.count(q) > 0 implies m2.tracks(q) by {
            assert(q != w.ptr);
            assert(m.guards.count(q) > 0);
            assert(m.tracks(q));
        }
        assert forall|j: int|
            0 <= j < m2.heap.len() implies ((#[trigger] m2.heap[j]) is Some <==> m2.tracks(
            (j + 1) as nat,
        )) by {
            let q = (j + 1) as nat;
            if q == w.ptr {
                assert(m2.heap[j] is None);
                assert(!m2.tracks(q));
            } else {
                assert(m2.heap[j] == m.heap[j]);
                assert(m.heap[j] is Some <==> m.tracks(q));
            }
        }
        assert(m2.wf());
        lemma_num_live_free(m.heap, w.ptr);
        lemma_live_accounting(m2);
    } else {
        assert forall|j: int|
            0 <= j < m.heap.len() implies ((#[trigger] m.heap[j]) is Some <==> j == m.latest.ptr
            - 1) by {
            if m.heap[j] is Some {
                assert(m.tracks((j + 1) as nat));
            }
            if j == m.latest.ptr - 1 {
                assert(allocated(m.heap, m.latest.ptr));
            }
        }
        lemma_num_live_one_slot(m.heap, m.latest.ptr - 1);
    }
}

/// Idempotent drop: releasing the same set of outstanding guards in any two
/// orders leaves the cell in the same state.
pub proof fn lemma_drop_order_irrelevant<T>(m: CellV<T>, order1: Seq<nat>, order2: Seq<nat>)
    requires
        m.wf(),
        order1.to_multiset() == m.guards,
        order2.to_multiset() == m.guards,
    ensures
        release_seq(m, order1) == release_seq(m, order2),
{
    lemma_release_all(m, order1);
    lemma_release_all(m, order2);
}

} // verus!
