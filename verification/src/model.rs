//! The mathematical model of a cell: its state, its well-formedness
//! invariant, and the transition each operation follows.
//!
//! The model renders the concurrent protocol as a transition system.  Every
//! atomic step of an operation — a reader's whole-word increment, a writer's
//! swap, a guard's decrement, each move of a reclamation — is a transition on
//! this state, and the invariant [`CellV::wf`] is proved inductive over all
//! of them, so it holds in every interleaving of the steps.

use vstd::multiset::Multiset;
use vstd::prelude::*;

verus! {

broadcast use vstd::multiset::group_multiset_axioms;

/// A tagged word as the model sees it: an allocation pointer and the count
/// of readers still charged against that pointer.  A pointer of zero marks
/// an empty slot.
pub ghost struct WordV {
    pub ptr: nat,
    pub cnt: nat,
}

impl WordV {
    /// The empty slot: no pointer, no readers.
    pub open spec fn empty() -> WordV {
        WordV { ptr: 0, cnt: 0 }
    }
}

/// The state of a cell.
///
/// `heap` models the allocator: each installed value occupies one slot, the
/// pointer to slot `j` is `j + 1` (zero is reserved for "empty"), and a
/// freed slot holds `None`.  Slots are never reused, so a pointer names one
/// allocation for the whole life of the cell.
///
/// `latest` names the current value.  `to_clear` is the single retirement
/// station, where one displaced allocation at a time waits for its readers
/// to drain.  `retiring` holds the displaced words whose installing writers
/// are still parked waiting for the station to come free, oldest first.
///
/// `guards` counts the outstanding read guards by captured pointer, and
/// `hist` records every pointer that has ever been `latest`, in order.
pub ghost struct CellV<T> {
    pub heap: Seq<Option<T>>,
    pub latest: WordV,
    pub to_clear: WordV,
    pub retiring: Seq<WordV>,
    pub guards: Multiset<nat>,
    pub hist: Seq<nat>,
}

/// `p` points to a live allocation of `heap`.
pub open spec fn allocated<T>(heap: Seq<Option<T>>, p: nat) -> bool {
    1 <= p <= heap.len() && heap[p - 1] is Some
}

/// The value of the allocation `p` points to.
pub open spec fn value_at<T>(heap: Seq<Option<T>>, p: nat) -> T
    recommends
        allocated(heap, p),
{
    heap[p - 1]->0
}

/// The number of live allocations in a heap.
pub open spec fn num_live<T>(heap: Seq<Option<T>>) -> nat
    decreases heap.len(),
{
    if heap.len() == 0 {
        0
    } else {
        num_live(heap.drop_last()) + (if heap.last() is Some {
            1nat
        } else {
            0nat
        })
    }
}

/// The heap with the allocation at `p` freed.
pub open spec fn free_at<T>(heap: Seq<Option<T>>, p: nat) -> Seq<Option<T>> {
    heap.update(p - 1, None)
}

impl<T> CellV<T> {
    /// The current value of the cell.
    pub open spec fn latest_value(self) -> T {
        value_at(self.heap, self.latest.ptr)
    }

    /// `p` is named by one of the cell's words.
    pub open spec fn tracks(self, p: nat) -> bool {
        ||| p == self.latest.ptr
        ||| p == self.to_clear.ptr
        ||| exists|i: int| 0 <= i < self.retiring.len() && (#[trigger] self.retiring[i]).ptr == p
    }

    /// The parts of well-formedness that hold of every state, including the
    /// intermediate states of a reclamation.
    pub open spec fn wf_core(self) -> bool {
        &&& self.latest.ptr != 0
        &&& allocated(self.heap, self.latest.ptr)
        &&& (self.to_clear.ptr == 0 ==> self.to_clear.cnt == 0)
        &&& (self.to_clear.ptr != 0 ==> allocated(self.heap, self.to_clear.ptr)
            && self.to_clear.ptr != self.latest.ptr)
        &&& (forall|i: int|
            0 <= i < self.retiring.len() ==> {
                let w = #[trigger] self.retiring[i];
                &&& w.ptr != 0
                &&& allocated(self.heap, w.ptr)
                &&& w.ptr != self.latest.ptr
                &&& w.ptr != self.to_clear.ptr
            })
        &&& (forall|i: int, j: int|
            0 <= i < j < self.retiring.len() ==> (#[trigger] self.retiring[i]).ptr != (
            #[trigger] self.retiring[j]).ptr)
        &&& self.latest.cnt == self.guards.count(self.latest.ptr)
        &&& (self.to_clear.ptr != 0 ==> self.to_clear.cnt == self.guards.count(self.to_clear.ptr))
        &&& (forall|i: int|
            0 <= i < self.retiring.len() ==> (#[trigger] self.retiring[i]).cnt
                == self.guards.count(self.retiring[i].ptr))
        &&& self.guards.count(0nat) == 0
        &&& (forall|p: nat| #[trigger] self.guards.count(p) > 0 ==> self.tracks(p))
        &&& (forall|j: int|
            0 <= j < self.heap.len() ==> ((#[trigger] self.heap[j]) is Some <==> self.tracks(
                (j + 1) as nat,
            )))
        &&& self.hist.len() >= 1
        &&& self.hist.last() == self.latest.ptr
        &&& (forall|i: int, j: int|
            0 <= i < j < self.hist.len() ==> self.hist[i] < self.hist[j])
        &&& (forall|i: int|
            0 <= i < self.hist.len() ==> 1 <= #[trigger] self.hist[i] <= self.heap.len())
    }

    /// Reclamation has made all the progress it can: a non-empty retirement
    /// station still has readers to drain, and words park in the queue only
    /// while the station is occupied.
    pub open spec fn pumped(self) -> bool {
        &&& (self.to_clear.ptr == 0 ==> self.retiring.len() == 0)
        &&& (self.to_clear.ptr != 0 ==> self.to_clear.cnt >= 1)
    }

    /// Well-formedness: holds of every state a caller can observe.
    pub open spec fn wf(self) -> bool {
        self.wf_core() && self.pumped()
    }
}

/// Reclamation run to quiescence: free the station's allocation once its
/// count drains to zero, and while the station is free, admit the oldest
/// parked word — freeing it at once if its readers are already gone.
pub open spec fn step_pump<T>(m: CellV<T>) -> CellV<T>
    decreases 2 * m.retiring.len() + (if m.to_clear.ptr != 0 { 1int } else { 0int }),
{
    if m.to_clear.ptr != 0 {
        if m.to_clear.cnt == 0 {
            step_pump(
                CellV { heap: free_at(m.heap, m.to_clear.ptr), to_clear: WordV::empty(), ..m },
            )
        } else {
            m
        }
    } else if m.retiring.len() > 0 {
        let w = m.retiring[0];
        if w.cnt == 0 {
            step_pump(CellV { heap: free_at(m.heap, w.ptr), retiring: m.retiring.skip(1), ..m })
        } else {
            step_pump(CellV { to_clear: w, retiring: m.retiring.skip(1), ..m })
        }
    } else {
        m
    }
}

/// The displaced word `w` entering reclamation: freed at once if it has no
/// readers, parked otherwise; then reclamation runs to quiescence.
pub open spec fn step_retire<T>(m: CellV<T>, w: WordV) -> CellV<T> {
    if w.cnt == 0 {
        step_pump(CellV { heap: free_at(m.heap, w.ptr), ..m })
    } else {
        step_pump(CellV { retiring: m.retiring.push(w), ..m })
    }
}

/// A reader acquiring: one whole-word increment of `latest`, observing
/// `latest.ptr`.
pub open spec fn step_acquire<T>(m: CellV<T>) -> CellV<T> {
    CellV {
        latest: WordV { ptr: m.latest.ptr, cnt: m.latest.cnt + 1 },
        guards: m.guards.insert(m.latest.ptr),
        ..m
    }
}

/// A writer installing `v`: allocate a fresh slot, swap `latest` whole, then
/// retire the displaced word.
pub open spec fn step_install<T>(m: CellV<T>, v: T) -> CellV<T> {
    let new_ptr = (m.heap.len() + 1) as nat;
    let m1 = CellV {
        heap: m.heap.push(Some(v)),
        latest: WordV { ptr: new_ptr, cnt: 0 },
        hist: m.hist.push(new_ptr),
        ..m
    };
    step_retire(m1, m.latest)
}

/// A guard for `p` releasing: decrement the word that still tracks `p` —
/// `latest` if the pointer has not been displaced, the retirement station or
/// a parked word otherwise — then let reclamation take whatever progress the
/// decrement enabled.
pub open spec fn step_release<T>(m: CellV<T>, p: nat) -> CellV<T> {
    let g = m.guards.remove(p);
    if m.latest.ptr == p {
        CellV { latest: WordV { ptr: p, cnt: (m.latest.cnt - 1) as nat }, guards: g, ..m }
    } else if m.to_clear.ptr == p {
        step_pump(
            CellV {
                to_clear: WordV { ptr: p, cnt: (m.to_clear.cnt - 1) as nat },
                guards: g,
                ..m
            },
        )
    } else {
        let i = choose|i: int| 0 <= i < m.retiring.len() && (#[trigger] m.retiring[i]).ptr == p;
        CellV {
            retiring: m.retiring.update(i, WordV { ptr: p, cnt: (m.retiring[i].cnt - 1) as nat }),
            guards: g,
            ..m
        }
    }
}

/// Freeing a drained retirement station preserves the core invariant and
/// the result of reclamation.
pub proof fn lemma_pump_free_station<T>(m: CellV<T>)
    requires
        m.wf_core(),
        m.to_clear.ptr != 0,
        m.to_clear.cnt == 0,
    ensures
        (CellV { heap: free_at(m.heap, m.to_clear.ptr), to_clear: WordV::empty(), ..m }).wf_core(),
        step_pump(m) == step_pump(
            CellV { heap: free_at(m.heap, m.to_clear.ptr), to_clear: WordV::empty(), ..m },
        ),
{
    let s = CellV { heap: free_at(m.heap, m.to_clear.ptr), to_clear: WordV::empty(), ..m };
    assert forall|j: int|
        0 <= j < s.heap.len() implies ((#[trigger] s.heap[j]) is Some <==> s.tracks(
        (j + 1) as nat,
    )) by {
        let p = (j + 1) as nat;
        if p == m.to_clear.ptr {
            assert(s.heap[j] is None);
            assert(forall|i: int|
                0 <= i < s.retiring.len() ==> (#[trigger] s.retiring[i]).ptr != p);
            assert(!s.tracks(p));
        } else {
            assert(s.heap[j] == m.heap[j]);
            assert(m.heap[j] is Some <==> m.tracks(p));
            if m.tracks(p) {
                if p != m.latest.ptr {
                    let i = choose|i: int|
                        0 <= i < m.retiring.len() && (#[trigger] m.retiring[i]).ptr == p;
                    assert(s.retiring[i].ptr == p);
                }
                assert(s.tracks(p));
            }
            if s.tracks(p) {
                if p != m.latest.ptr {
                    let i = choose|i: int|
                        0 <= i < s.retiring.len() && (#[trigger] s.retiring[i]).ptr == p;
                    assert(m.retiring[i].ptr == p);
                }
                assert(m.tracks(p));
            }
        }
    }
    assert(s.wf_core());
}

/// Admitting a parked word whose readers are already gone: its slot is
/// freed at once; the core invariant and the result of reclamation are
/// preserved.
pub proof fn lemma_pump_advance_free<T>(m: CellV<T>)
    requires
        m.wf_core(),
        m.to_clear.ptr == 0,
        m.retiring.len() > 0,
        m.retiring[0].cnt == 0,
    ensures
        (CellV {
            heap: free_at(m.heap, m.retiring[0].ptr),
            retiring: m.retiring.skip(1),
            ..m
        }).wf_core(),
        step_pump(m) == step_pump(
            CellV { heap: free_at(m.heap, m.retiring[0].ptr), retiring: m.retiring.skip(1), ..m },
        ),
{
    let w = m.retiring[0];
    let rest = m.retiring.skip(1);
    assert(forall|i: int| 0 <= i < rest.len() ==> rest[i] == m.retiring[i + 1]);
    let s = CellV { heap: free_at(m.heap, w.ptr), retiring: rest, ..m };
    assert forall|p: nat| #[trigger] s.guards.count(p) > 0 implies s.tracks(p) by {
        assert(m.tracks(p));
        if p == w.ptr {
            assert(m.guards.count(p) == 0);
        } else if p != m.latest.ptr && p != m.to_clear.ptr {
            let i = choose|i: int|
                0 <= i < m.retiring.len() && (#[trigger] m.retiring[i]).ptr == p;
            assert(i >= 1);
            assert(s.retiring[i - 1] == m.retiring[i]);
        }
    }
    assert forall|j: int|
        0 <= j < s.heap.len() implies ((#[trigger] s.heap[j]) is Some <==> s.tracks(
        (j + 1) as nat,
    )) by {
        let p = (j + 1) as nat;
        if p == w.ptr {
            assert(s.heap[j] is None);
            assert(forall|i: int|
                0 <= i < s.retiring.len() ==> (#[trigger] s.retiring[i]).ptr != p);
            assert(!s.tracks(p));
        } else {
            assert(s.heap[j] == m.heap[j]);
            assert(m.heap[j] is Some <==> m.tracks(p));
            if m.tracks(p) {
                if p != m.latest.ptr && p != m.to_clear.ptr {
                    let i = choose|i: int|
                        0 <= i < m.retiring.len() && (#[trigger] m.retiring[i]).ptr == p;
                    assert(i >= 1);
                    assert(s.retiring[i - 1] == m.retiring[i]);
                }
                assert(s.tracks(p));
            }
            if s.tracks(p) {
                if p != s.latest.ptr && p != s.to_clear.ptr {
                    let i = choose|i: int|
                        0 <= i < s.retiring.len() && (#[trigger] s.retiring[i]).ptr == p;
                    assert(s.retiring[i] == m.retiring[i + 1]);
                }
                assert(m.tracks(p));
            }
        }
    }
    assert(s.wf_core());
}

/// Admitting a parked word that still has readers into the free retirement
/// station preserves the core invariant and the result of reclamation.
pub proof fn lemma_pump_advance_install<T>(m: CellV<T>)
    requires
        m.wf_core(),
        m.to_clear.ptr == 0,
        m.retiring.len() > 0,
        m.retiring[0].cnt > 0,
    ensures
        (CellV { to_clear: m.retiring[0], retiring: m.retiring.skip(1), ..m }).wf_core(),
        step_pump(m) == step_pump(
            CellV { to_clear: m.retiring[0], retiring: m.retiring.skip(1), ..m },
        ),
{
    let w = m.retiring[0];
    let rest = m.retiring.skip(1);
    assert(forall|i: int| 0 <= i < rest.len() ==> rest[i] == m.retiring[i + 1]);
    let s = CellV { to_clear: w, retiring: rest, ..m };
    assert forall|i: int| 0 <= i < s.retiring.len() implies {
        let x = #[trigger] s.retiring[i];
        &&& x.ptr != 0
        &&& allocated(s.heap, x.ptr)
        &&& x.ptr != s.latest.ptr
        &&& x.ptr != s.to_clear.ptr
        &&& x.cnt == s.guards.count(x.ptr)
    } by {
        assert(s.retiring[i] == m.retiring[i + 1]);
        assert(m.retiring[i + 1].ptr != w.ptr);
    }
    assert forall|p: nat| #[trigger] s.guards.count(p) > 0 implies s.tracks(p) by {
        assert(m.tracks(p));
        if p != m.latest.ptr && p != m.to_clear.ptr {
            let i = choose|i: int|
                0 <= i < m.retiring.len() && (#[trigger] m.retiring[i]).ptr == p;
            if i >= 1 {
                assert(s.retiring[i - 1] == m.retiring[i]);
            }
        }
    }
    assert forall|j: int|
        0 <= j < s.heap.len() implies ((#[trigger] s.heap[j]) is Some <==> s.tracks(
        (j + 1) as nat,
    )) by {
        let p = (j + 1) as nat;
        assert(m.heap[j] is Some <==> m.tracks(p));
        if m.tracks(p) {
            if p != m.latest.ptr && p != m.to_clear.ptr {
                let i = choose|i: int|
                    0 <= i < m.retiring.len() && (#[trigger] m.retiring[i]).ptr == p;
                if i >= 1 {
                    assert(s.retiring[i - 1] == m.retiring[i]);
                }
            }
            assert(s.tracks(p));
        }
        if s.tracks(p) {
            if p != s.latest.ptr && p != s.to_clear.ptr {
                let i = choose|i: int|
                    0 <= i < s.retiring.len() && (#[trigger] s.retiring[i]).ptr == p;
                assert(s.retiring[i] == m.retiring[i + 1]);
            }
            assert(m.tracks(p));
        }
    }
    assert(s.wf_core());
}

/// What reclamation leaves untouched: the `latest` word, the guard counts,
/// the history, the heap's length, the slot of every pointer that still has
/// an outstanding guard, and every slot that is already free.
pub proof fn lemma_pump<T>(m: CellV<T>)
    requires
        m.wf_core(),
    ensures
        step_pump(m).wf(),
        step_pump(m).latest == m.latest,
        step_pump(m).guards == m.guards,
        step_pump(m).hist == m.hist,
        step_pump(m).heap.len() == m.heap.len(),
        step_pump(m).heap[m.latest.ptr - 1] == m.heap[m.latest.ptr - 1],
        forall|j: int|
            0 <= j < m.heap.len() && m.guards.count((j + 1) as nat) > 0 ==> step_pump(
                m,
            ).heap[j] == m.heap[j],
        forall|j: int|
            0 <= j < m.heap.len() && m.heap[j] is None ==> step_pump(m).heap[j] is None,
    decreases 2 * m.retiring.len() + (if m.to_clear.ptr != 0 { 1int } else { 0int }),
{
    if m.to_clear.ptr != 0 && m.to_clear.cnt == 0 {
        let s = CellV { heap: free_at(m.heap, m.to_clear.ptr), to_clear: WordV::empty(), ..m };
        lemma_pump_free_station(m);
        lemma_pump(s);
        assert forall|j: int|
            0 <= j < m.heap.len() && m.guards.count((j + 1) as nat) > 0 implies step_pump(
            m,
        ).heap[j] == m.heap[j] by {
            assert((j + 1) as nat != m.to_clear.ptr);
            assert(s.heap[j] == m.heap[j]);
        }
        assert forall|j: int|
            0 <= j < m.heap.len() && m.heap[j] is None implies step_pump(m).heap[j] is None by {
            assert(s.heap[j] is None);
        }
    } else if m.to_clear.ptr == 0 && m.retiring.len() > 0 {
        let w = m.retiring[0];
        if w.cnt == 0 {
            let s = CellV { heap: free_at(m.heap, w.ptr), retiring: m.retiring.skip(1), ..m };
            lemma_pump_advance_free(m);
            lemma_pump(s);
            assert forall|j: int|
                0 <= j < m.heap.len() && m.guards.count((j + 1) as nat) > 0 implies step_pump(
                m,
            ).heap[j] == m.heap[j] by {
                assert((j + 1) as nat != w.ptr);
                assert(s.heap[j] == m.heap[j]);
            }
            assert forall|j: int|
                0 <= j < m.heap.len() && m.heap[j] is None implies step_pump(
                m,
            ).heap[j] is None by {
                assert(s.heap[j] is None);
            }
        } else {
            let s = CellV { to_clear: w, retiring: m.retiring.skip(1), ..m };
            lemma_pump_advance_install(m);
            lemma_pump(s);
        }
    }
}

/// A fresh cell holding `value`.
pub open spec fn step_init<T>(value: T) -> CellV<T> {
    CellV {
        heap: seq![Some(value)],
        latest: WordV { ptr: 1, cnt: 0 },
        to_clear: WordV::empty(),
        retiring: Seq::empty(),
        guards: Multiset::empty(),
        hist: seq![1nat],
    }
}

/// Two states whose words name the same pointers track the same pointers.
pub proof fn lemma_tracks_same_words<T>(a: CellV<T>, b: CellV<T>, p: nat)
    requires
        a.latest.ptr == b.latest.ptr,
        a.to_clear.ptr == b.to_clear.ptr,
        a.retiring == b.retiring,
    ensures
        a.tracks(p) <==> b.tracks(p),
{
    if a.tracks(p) && p != a.latest.ptr && p != a.to_clear.ptr {
        let i = choose|i: int| 0 <= i < a.retiring.len() && (#[trigger] a.retiring[i]).ptr == p;
        assert((#[trigger] b.retiring[i]).ptr == p);
    }
    if b.tracks(p) && p != a.latest.ptr && p != a.to_clear.ptr {
        let i = choose|i: int| 0 <= i < b.retiring.len() && (#[trigger] b.retiring[i]).ptr == p;
        assert((#[trigger] a.retiring[i]).ptr == p);
    }
}

/// A fresh cell is well formed, holds its initial value, and has no guards.
pub proof fn lemma_init<T>(value: T)
    ensures
        step_init(value).wf(),
        step_init(value).latest_value() == value,
        step_init(value).guards == Multiset::<nat>::empty(),
        step_init(value).heap.len() == 1,
        step_init(value).hist == seq![1nat],
{
    let m = step_init::<T>(value);
    assert(m.heap[0] is Some);
    assert(m.tracks(1nat));
    assert(m.wf());
}

/// The displaced word `w` stands to `m` as a displaced word must: its
/// pointer is live and distinct from every other word's, and it is charged
/// with exactly the guards still outstanding for its pointer.  This is the
/// state of a writer between its swap of `latest` and its reclamation.
pub open spec fn wf_mid<T>(m: CellV<T>, w: WordV) -> bool {
    CellV { retiring: m.retiring.push(w), ..m }.wf_core()
}

/// Retiring a displaced word preserves what reclamation preserves.
pub proof fn lemma_retire<T>(m: CellV<T>, w: WordV)
    requires
        wf_mid(m, w),
    ensures
        step_retire(m, w).wf(),
        step_retire(m, w).latest == m.latest,
        step_retire(m, w).guards == m.guards,
        step_retire(m, w).hist == m.hist,
        step_retire(m, w).heap.len() == m.heap.len(),
        step_retire(m, w).heap[m.latest.ptr - 1] == m.heap[m.latest.ptr - 1],
        forall|j: int|
            0 <= j < m.heap.len() && m.guards.count((j + 1) as nat) > 0 ==> step_retire(
                m,
                w,
            ).heap[j] == m.heap[j],
        forall|j: int|
            0 <= j < m.heap.len() && m.heap[j] is None ==> step_retire(m, w).heap[j] is None,
        w.cnt == 0 ==> (CellV { heap: free_at(m.heap, w.ptr), ..m }).wf_core(),
        w.cnt != 0 ==> (CellV { retiring: m.retiring.push(w), ..m }).wf_core(),
{
    let pm = CellV { retiring: m.retiring.push(w), ..m };
    let last = m.retiring.len() as int;
    assert(pm.retiring[last] == w);
    assert(forall|i: int| 0 <= i < last ==> pm.retiring[i] == m.retiring[i]);
    if w.cnt == 0 {
        assert(m.guards.count(w.ptr) == w.cnt);
        let s = CellV { heap: free_at(m.heap, w.ptr), ..m };
        assert forall|p: nat| #[trigger] s.guards.count(p) > 0 implies s.tracks(p) by {
            assert(pm.tracks(p));
            if p == w.ptr {
                assert(m.guards.count(p) == 0);
            } else if p != m.latest.ptr && p != m.to_clear.ptr {
                let i = choose|i: int|
                    0 <= i < pm.retiring.len() && (#[trigger] pm.retiring[i]).ptr == p;
                assert(i < last);
                assert(s.retiring[i] == pm.retiring[i]);
            }
        }
        assert forall|j: int|
            0 <= j < s.heap.len() implies ((#[trigger] s.heap[j]) is Some <==> s.tracks(
            (j + 1) as nat,
        )) by {
            let p = (j + 1) as nat;
            assert(pm.heap[j] is Some <==> pm.tracks(p));
            if p == w.ptr {
                assert(s.heap[j] is None);
                assert(forall|i: int|
                    0 <= i < s.retiring.len() ==> (#[trigger] s.retiring[i]).ptr != p);
                assert(!s.tracks(p));
            } else {
                assert(s.heap[j] == m.heap[j]);
                if pm.tracks(p) {
                    if p != m.latest.ptr && p != m.to_clear.ptr {
                        let i = choose|i: int|
                            0 <= i < pm.retiring.len() && (#[trigger] pm.retiring[i]).ptr == p;
                        assert(i < last);
                        assert(s.retiring[i] == pm.retiring[i]);
                    }
                    assert(s.tracks(p));
                }
                if s.tracks(p) {
                    if p != m.latest.ptr && p != m.to_clear.ptr {
                        let i = choose|i: int|
                            0 <= i < s.retiring.len() && (#[trigger] s.retiring[i]).ptr == p;
                        assert(pm.retiring[i] == s.retiring[i]);
                    }
                    assert(pm.tracks(p));
                }
            }
        }
        assert(s.wf_core());
        lemma_pump(s);
        assert(step_retire(m, w) == step_pump(s));
        assert forall|j: int|
            0 <= j < m.heap.len() && m.guards.count((j + 1) as nat) > 0 implies step_retire(
            m,
            w,
        ).heap[j] == m.heap[j] by {
            assert((j + 1) as nat != w.ptr);
            assert(s.heap[j] == m.heap[j]);
        }
        assert forall|j: int|
            0 <= j < m.heap.len() && m.heap[j] is None implies step_retire(
            m,
            w,
        ).heap[j] is None by {
            assert(s.heap[j] is None);
        }
    } else {
        lemma_pump(pm);
        assert(step_retire(m, w) == step_pump(pm));
    }
}

/// Acquisition raises the count of `latest` and the guard population for its
/// pointer by one, together, and touches nothing else.
pub proof fn lemma_acquire<T>(m: CellV<T>)
    requires
        m.wf(),
    ensures
        step_acquire(m).wf(),
        step_acquire(m).heap == m.heap,
        step_acquire(m).latest.ptr == m.latest.ptr,
        step_acquire(m).latest.cnt == m.latest.cnt + 1,
        step_acquire(m).to_clear == m.to_clear,
        step_acquire(m).retiring == m.retiring,
        step_acquire(m).guards == m.guards.insert(m.latest.ptr),
        step_acquire(m).hist == m.hist,
        step_acquire(m).latest_value() == m.latest_value(),
    {
    let s = step_acquire(m);
    assert forall|p: nat| #[trigger] s.guards.count(p) > 0 implies s.tracks(p) by {
        if p != m.latest.ptr {
            assert(s.guards.count(p) == m.guards.count(p));
            assert(m.tracks(p));
        }
        lemma_tracks_same_words(s, m, p);
    }
    assert forall|j: int|
        0 <= j < s.heap.len() implies ((#[trigger] s.heap[j]) is Some <==> s.tracks(
        (j + 1) as nat,
    )) by {
        assert(m.heap[j] is Some <==> m.tracks((j + 1) as nat));
        lemma_tracks_same_words(s, m, (j + 1) as nat);
    }
    assert(s.wf());
}

/// Installation puts the new value in a fresh slot of the heap, makes it
/// `latest` with a count of zero, appends it to the history, and leaves the
/// guard population, every guarded slot, and every freed slot unchanged.
pub proof fn lemma_install<T>(m: CellV<T>, v: T)
    requires
        m.wf(),
    ensures
        step_install(m, v).wf(),
        step_install(m, v).guards == m.guards,
        step_install(m, v).latest == (WordV { ptr: (m.heap.len() + 1) as nat, cnt: 0 }),
        step_install(m, v).heap.len() == m.heap.len() + 1,
        step_install(m, v).latest_value() == v,
        step_install(m, v).hist == m.hist.push((m.heap.len() + 1) as nat),
        forall|j: int|
            0 <= j < m.heap.len() && m.guards.count((j + 1) as nat) > 0 ==> step_install(
                m,
                v,
            ).heap[j] == m.heap[j],
        forall|j: int|
            0 <= j < m.heap.len() && m.heap[j] is None ==> step_install(m, v).heap[j] is None,
        wf_mid(
            CellV {
                heap: m.heap.push(Some(v)),
                latest: WordV { ptr: (m.heap.len() + 1) as nat, cnt: 0 },
                hist: m.hist.push((m.heap.len() + 1) as nat),
                ..m
            },
            m.latest,
        ),
{
    let new_ptr = (m.heap.len() + 1) as nat;
    let m1 = CellV {
        heap: m.heap.push(Some(v)),
        latest: WordV { ptr: new_ptr, cnt: 0 },
        hist: m.hist.push(new_ptr),
        ..m
    };
    let pm = CellV { retiring: m1.retiring.push(m.latest), ..m1 };
    let last = m.retiring.len() as int;
    assert(m.guards.count(new_ptr) == 0) by {
        if m.guards.count(new_ptr) > 0 {
            assert(m.tracks(new_ptr));
            assert(allocated(m.heap, new_ptr));
        }
    }
    assert(pm.retiring[last] == m.latest);
    assert(forall|i: int| 0 <= i < last ==> pm.retiring[i] == m.retiring[i]);
    assert forall|p: nat| #[trigger] pm.guards.count(p) > 0 implies pm.tracks(p) by {
        assert(m.tracks(p));
        if p == m.latest.ptr {
            assert(pm.retiring[last].ptr == p);
        } else if p != m.to_clear.ptr {
            let i = choose|i: int|
                0 <= i < m.retiring.len() && (#[trigger] m.retiring[i]).ptr == p;
            assert(pm.retiring[i] == m.retiring[i]);
        }
    }
    assert forall|j: int|
        0 <= j < pm.heap.len() implies ((#[trigger] pm.heap[j]) is Some <==> pm.tracks(
        (j + 1) as nat,
    )) by {
        let p = (j + 1) as nat;
        if j < m.heap.len() {
            assert(pm.heap[j] == m.heap[j]);
            assert(m.heap[j] is Some <==> m.tracks(p));
            if m.tracks(p) {
                if p == m.latest.ptr {
                    assert(pm.retiring[last].ptr == p);
                } else if p != m.to_clear.ptr {
                    let i = choose|i: int|
                        0 <= i < m.retiring.len() && (#[trigger] m.retiring[i]).ptr == p;
                    assert(pm.retiring[i] == m.retiring[i]);
                }
                assert(pm.tracks(p));
            }
            if pm.tracks(p) {
                assert(allocated(m.heap, m.latest.ptr));
                if p != pm.latest.ptr && p != pm.to_clear.ptr {
                    let i = choose|i: int|
                        0 <= i < pm.retiring.len() && (#[trigger] pm.retiring[i]).ptr == p;
                    if i < last {
                        assert(m.retiring[i] == pm.retiring[i]);
                    }
                }
                assert(m.tracks(p));
            }
        } else {
            assert(pm.heap[j] == Some(v));
            assert(pm.latest.ptr == p);
        }
    }
    assert(pm.wf_core());
    assert(wf_mid(m1, m.latest));
    lemma_retire(m1, m.latest);
    assert(step_install(m, v) == step_retire(m1, m.latest));
    assert(step_install(m, v).heap[new_ptr - 1] == Some(v));
    assert forall|j: int|
        0 <= j < m.heap.len() && m.guards.count((j + 1) as nat) > 0 implies step_install(
        m,
        v,
    ).heap[j] == m.heap[j] by {
        assert(m1.heap[j] == m.heap[j]);
    }
    assert forall|j: int|
        0 <= j < m.heap.len() && m.heap[j] is None implies step_install(
        m,
        v,
    ).heap[j] is None by {
        assert(m1.heap[j] is None);
    }
}

/// A well-formed state has at most one word tracking any pointer, so the
/// index of a parked word is determined by its pointer.
pub proof fn lemma_retiring_index_unique<T>(m: CellV<T>, i: int, j: int)
    requires
        m.wf_core(),
        0 <= i < m.retiring.len(),
        0 <= j < m.retiring.len(),
        m.retiring[i].ptr == m.retiring[j].ptr,
    ensures
        i == j,
{
}

/// Release lowers the count of the word tracking `p` and the guard
/// population for `p` by one, together; it frees a slot only once its count
/// has drained, and never the slot of `latest` or of any pointer that still
/// has a guard outstanding.
pub proof fn lemma_release<T>(m: CellV<T>, p: nat)
    requires
        m.wf(),
        m.guards.count(p) >= 1,
    ensures
        step_release(m, p).wf(),
        step_release(m, p).guards == m.guards.remove(p),
        step_release(m, p).latest.ptr == m.latest.ptr,
        step_release(m, p).hist == m.hist,
        step_release(m, p).heap.len() == m.heap.len(),
        step_release(m, p).latest_value() == m.latest_value(),
        forall|j: int|
            0 <= j < m.heap.len() && m.guards.remove(p).count((j + 1) as nat) > 0
                ==> step_release(m, p).heap[j] == m.heap[j],
        forall|j: int|
            0 <= j < m.heap.len() && m.heap[j] is None ==> step_release(m, p).heap[j] is None,
{
    let g = m.guards.remove(p);
    assert(m.tracks(p));
    assert(g.count(p) == m.guards.count(p) - 1);
    assert(forall|q: nat| q != p ==> #[trigger] g.count(q) == m.guards.count(q));
    if m.latest.ptr == p {
        let s = step_release(m, p);
        assert forall|q: nat| #[trigger] s.guards.count(q) > 0 implies s.tracks(q) by {
            assert(m.guards.count(q) > 0);
            assert(m.tracks(q));
            lemma_tracks_same_words(s, m, q);
        }
        assert forall|j: int|
            0 <= j < s.heap.len() implies ((#[trigger] s.heap[j]) is Some <==> s.tracks(
            (j + 1) as nat,
        )) by {
            assert(m.heap[j] is Some <==> m.tracks((j + 1) as nat));
            lemma_tracks_same_words(s, m, (j + 1) as nat);
        }
        assert(s.wf());
    } else if m.to_clear.ptr == p {
        let s = CellV {
            to_clear: WordV { ptr: p, cnt: (m.to_clear.cnt - 1) as nat },
            guards: g,
            ..m
        };
        assert forall|q: nat| #[trigger] s.guards.count(q) > 0 implies s.tracks(q) by {
            assert(m.guards.count(q) > 0);
            assert(m.tracks(q));
            lemma_tracks_same_words(s, m, q);
        }
        assert forall|j: int|
            0 <= j < s.heap.len() implies ((#[trigger] s.heap[j]) is Some <==> s.tracks(
            (j + 1) as nat,
        )) by {
            assert(m.heap[j] is Some <==> m.tracks((j + 1) as nat));
            lemma_tracks_same_words(s, m, (j + 1) as nat);
        }
        assert(s.wf_core());
        lemma_pump(s);
        assert(step_release(m, p) == step_pump(s));
        assert forall|j: int|
            0 <= j < m.heap.len() && g.count((j + 1) as nat) > 0 implies step_release(
            m,
            p,
        ).heap[j] == m.heap[j] by {
            assert(s.guards == g);
        }
    } else {
        assert(exists|i: int|
            0 <= i < m.retiring.len() && (#[trigger] m.retiring[i]).ptr == p);
        let i = choose|i: int| 0 <= i < m.retiring.len() && (#[trigger] m.retiring[i]).ptr == p;
        let s = step_release(m, p);
        assert(s.retiring == m.retiring.update(
            i,
            WordV { ptr: p, cnt: (m.retiring[i].cnt - 1) as nat },
        ));
        assert(forall|k: int|
            0 <= k < s.retiring.len() ==> (#[trigger] s.retiring[k]).ptr == m.retiring[k].ptr);
        assert forall|q: nat| #[trigger] s.guards.count(q) > 0 implies s.tracks(q) by {
            assert(m.guards.count(q) > 0);
            assert(m.tracks(q));
            if q != m.latest.ptr && q != m.to_clear.ptr {
                let k = choose|k: int|
                    0 <= k < m.retiring.len() && (#[trigger] m.retiring[k]).ptr == q;
                assert(s.retiring[k].ptr == q);
            }
        }
        assert forall|j: int|
            0 <= j < s.heap.len() implies ((#[trigger] s.heap[j]) is Some <==> s.tracks(
            (j + 1) as nat,
        )) by {
            let q = (j + 1) as nat;
            assert(m.heap[j] is Some <==> m.tracks(q));
            if m.tracks(q) {
                if q != m.latest.ptr && q != m.to_clear.ptr {
                    let k = choose|k: int|
                        0 <= k < m.retiring.len() && (#[trigger] m.retiring[k]).ptr == q;
                    assert(s.retiring[k].ptr == q);
                }
                assert(s.tracks(q));
            }
            if s.tracks(q) {
                if q != m.latest.ptr && q != m.to_clear.ptr {
                    let k = choose|k: int|
                        0 <= k < s.retiring.len() && (#[trigger] s.retiring[k]).ptr == q;
                    assert(m.retiring[k].ptr == q);
                }
                assert(m.tracks(q));
            }
        }
        assert(s.wf_core());
        assert(s.wf());
    }
}

} // verus!
