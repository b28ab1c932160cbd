//! The cell and its read guard.
//!
//! `RcuCell` holds the two tagged words of the protocol — `latest`, naming
//! the current value, and `to_clear`, the retirement station — together with
//! the modelled allocator and the queue of displaced words whose writers are
//! parked at the station.  Every operation's contract says that the cell
//! moves by the corresponding transition of [`crate::model`], so the
//! invariant [`CellV::wf`] holds after any sequence of operations.
//!
//! A guard is one unit of reader count charged against its captured pointer.
//! It is released explicitly, by [`RcuCell::drop_guard`]; until then the
//! value it captured is proved to stay allocated, however many installations
//! overtake it.

use vstd::multiset::Multiset;
use vstd::prelude::*;

use crate::exclusion::{
    acquire_exclusive, acquire_shared, exclusion_new, release_exclusive, release_shared,
};
use crate::model::{
    allocated, free_at, num_live, step_acquire, step_init, step_install, step_pump, step_release,
    step_retire, value_at, wf_mid, CellV, WordV,
};
use crate::model::{
    lemma_acquire, lemma_init, lemma_install, lemma_pump_advance_free,
    lemma_pump_advance_install, lemma_pump_free_station, lemma_release, lemma_retire,
    lemma_retiring_index_unique,
};
use crate::word::{
    cnt_of, lemma_pack_fields, lemma_word_zero, ptr_of, word_cnt, word_dec, word_inc, word_pack,
    word_ptr,
};

verus! {

broadcast use vstd::multiset::group_multiset_axioms;

/// The tagged word a 128-bit value denotes.
pub open spec fn word_view(w: u128) -> WordV {
    WordV { ptr: ptr_of(w) as nat, cnt: cnt_of(w) as nat }
}

/// A read guard: one unit of reader count on the pointer it captured at
/// acquisition.  Release it with [`RcuCell::drop_guard`].
pub struct RcuGuard {
    ptr: u64,
}

impl View for RcuGuard {
    type V = nat;

    /// The captured pointer.
    closed spec fn view(&self) -> nat {
        self.ptr as nat
    }
}

/// A container for a single value, read through counted guards and replaced
/// out-of-place by writers.
pub struct RcuCell<T> {
    heap: Vec<Option<T>>,
    latest: u128,
    to_clear: u128,
    retiring: Vec<u128>,
    guards: Ghost<Multiset<nat>>,
    hist: Ghost<Seq<nat>>,
    update_token: parking_lot::RwLock<()>,
}

impl<T> View for RcuCell<T> {
    type V = CellV<T>;

    closed spec fn view(&self) -> CellV<T> {
        CellV {
            heap: self.heap@,
            latest: word_view(self.latest),
            to_clear: word_view(self.to_clear),
            retiring: self.retiring@.map_values(|w: u128| word_view(w)),
            guards: self.guards@,
            hist: self.hist@,
        }
    }
}

impl<T> RcuCell<T> {
    /// Creates a new cell holding `value`.
    pub fn new(value: T) -> (c: Self)
        ensures
            c@ == step_init(value),
            c@.wf(),
    {
        let mut heap: Vec<Option<T>> = Vec::new();
        heap.push(Some(value));
        let latest = word_pack(1, 0);
        let c = RcuCell {
            heap,
            latest,
            to_clear: 0,
            retiring: Vec::new(),
            guards: Ghost(Multiset::empty()),
            hist: Ghost(Seq::empty().push(1nat)),
            update_token: exclusion_new(),
        };
        proof {
            lemma_init(value);
            lemma_word_zero(0);
            assert(c@.heap =~= step_init(value).heap);
            assert(c@.retiring =~= step_init(value).retiring);
            assert(c@ == step_init(value));
        }
        c
    }

    /// Acquires a read guard.
    ///
    /// One whole-word increment of `latest` registers the reader and
    /// observes the current pointer in a single step; the guard captures
    /// that pointer.
    pub fn read(&mut self) -> (g: RcuGuard)
        requires
            old(self)@.wf(),
            old(self)@.guards.len() < u64::MAX,
        ensures
            final(self)@ == step_acquire(old(self)@),
            final(self)@.wf(),
            g@ == old(self)@.latest.ptr,
            value_at(final(self)@.heap, g@) == old(self)@.latest_value(),
            final(self)@.guards.count(g@) == old(self)@.guards.count(g@) + 1,
    {
        proof {
            lemma_acquire(old(self)@);
            assert(cnt_of(self.latest) == self@.guards.count(self@.latest.ptr));
        }
        let w = self.latest;
        self.latest = word_inc(w);
        let p = word_ptr(w);
        proof {
            self.guards@ = self.guards@.insert(p as nat);
            lemma_pack_fields(ptr_of(w), (cnt_of(w) + 1) as u64);
            assert(self@ == step_acquire(old(self)@));
        }
        RcuGuard { ptr: p }
    }

    /// The value a guard captured.
    ///
    /// The guard's pointer is proved to be a live allocation — this is the
    /// absence of use-after-free — so the reference is good for as long as
    /// the borrow of the cell lasts.
    pub fn get<'a>(&'a self, guard: &RcuGuard) -> (r: &'a T)
        requires
            self@.wf(),
            self@.guards.count(guard@) >= 1,
        ensures
            *r == value_at(self@.heap, guard@),
    {
        proof {
            assert(self@.tracks(guard@));
            if guard@ != self@.latest.ptr && guard@ != self@.to_clear.ptr {
                let i = choose|i: int|
                    0 <= i < self@.retiring.len() && (#[trigger] self@.retiring[i]).ptr
                        == guard@;
                assert(allocated(self@.heap, guard@));
            }
            assert(allocated(self@.heap, guard@));
        }
        let n: usize = self.heap.len();
        proof {
            assert(guard.ptr >= 1 && guard.ptr - 1 < n);
        }
        let i: usize = (guard.ptr - 1) as usize;
        proof {
            assert(i == guard@ - 1);
            assert(self.heap@[i as int] is Some);
        }
        self.heap[i].as_ref().unwrap()
    }

    /// Runs the reclamation loop: frees the station's allocation once its
    /// count has drained, and while the station is free admits the oldest
    /// parked word, freeing it at once if its readers are already gone.
    fn pump(&mut self)
        requires
            old(self)@.wf_core(),
        ensures
            final(self)@ == step_pump(old(self)@),
            final(self)@.wf(),
    {
        loop
            invariant
                self@.wf_core(),
                step_pump(self@) == step_pump(old(self)@),
            ensures
                self@.wf(),
                step_pump(self@) == step_pump(old(self)@),
                self@.pumped(),
            decreases 2 * self@.retiring.len() + (if self@.to_clear.ptr != 0 {
                1int
            } else {
                0int
            }),
        {
            if self.to_clear != 0 {
                proof {
                    lemma_word_zero(self.to_clear);
                }
                if word_cnt(self.to_clear) == 0 {
                    let ghost m = self@;
                    proof {
                        lemma_pump_free_station(m);
                        assert(allocated(m.heap, m.to_clear.ptr));
                    }
                    let p = word_ptr(self.to_clear);
                    let n: usize = self.heap.len();
                    proof {
                        assert(p >= 1 && p - 1 < n);
                    }
                    let i: usize = (p - 1) as usize;
                    self.heap[i] = None;
                    self.to_clear = 0;
                    proof {
                        lemma_word_zero(0);
                        let s = CellV {
                            heap: free_at(m.heap, m.to_clear.ptr),
                            to_clear: WordV::empty(),
                            ..m
                        };
                        assert(self@.heap =~= s.heap);
                        assert(self@ == s);
                    }
                } else {
                    break;
                }
            } else {
                proof {
                    lemma_word_zero(self.to_clear);
                }
                if self.retiring.len() == 0 {
                    proof {
                        assert(self@.retiring.len() == 0);
                    }
                    break;
                }
                let ghost m = self@;
                let w = self.retiring.remove(0);
                proof {
                    assert(word_view(w) == m.retiring[0]);
                    assert(self@.retiring =~= m.retiring.skip(1));
                }
                if word_cnt(w) == 0 {
                    proof {
                        lemma_pump_advance_free(m);
                        assert(allocated(m.heap, m.retiring[0].ptr));
                    }
                    let p = word_ptr(w);
                    let n: usize = self.heap.len();
                    proof {
                        assert(p >= 1 && p - 1 < n);
                    }
                    let i: usize = (p - 1) as usize;
                    self.heap[i] = None;
                    proof {
                        let s = CellV {
                            heap: free_at(m.heap, m.retiring[0].ptr),
                            retiring: m.retiring.skip(1),
                            ..m
                        };
                        assert(self@.heap =~= s.heap);
                        assert(self@.retiring =~= s.retiring);
                        assert(self@ == s);
                    }
                } else {
                    proof {
                        lemma_pump_advance_install(m);
                    }
                    self.to_clear = w;
                    proof {
                        let s = CellV { to_clear: m.retiring[0], retiring: m.retiring.skip(1), ..m };
                        assert(self@.retiring =~= s.retiring);
                        assert(self@ == s);
                    }
                }
            }
        }
        proof {
            assert(step_pump(self@) == self@);
        }
    }

    /// Retires the word a swap of `latest` displaced: frees its allocation
    /// at once when no reader holds it, otherwise parks it for the
    /// retirement station, then runs the reclamation loop.
    fn reclaim(&mut self, old_word: u128)
        requires
            wf_mid(old(self)@, word_view(old_word)),
        ensures
            final(self)@ == step_retire(old(self)@, word_view(old_word)),
            final(self)@.wf(),
    {
        let ghost m = old(self)@;
        let ghost w = word_view(old_word);
        proof {
            lemma_retire(m, w);
        }
        if word_cnt(old_word) == 0 {
            let p = word_ptr(old_word);
            let n: usize = self.heap.len();
            proof {
                let pm = CellV { retiring: m.retiring.push(w), ..m };
                assert(pm.retiring[m.retiring.len() as int] == w);
                assert(allocated(m.heap, w.ptr));
                assert(p >= 1 && p - 1 < n);
            }
            let i: usize = (p - 1) as usize;
            self.heap[i] = None;
            proof {
                let s = CellV { heap: free_at(m.heap, w.ptr), ..m };
                assert(self@.heap =~= s.heap);
                assert(self@ == s);
            }
            self.pump();
        } else {
            self.retiring.push(old_word);
            proof {
                let s = CellV { retiring: m.retiring.push(w), ..m };
                assert(self@.retiring =~= s.retiring);
                assert(self@ == s);
            }
            self.pump();
        }
    }

    /// Installs `value`.
    ///
    /// The new value goes to a fresh allocation; one swap makes it `latest`
    /// and captures the displaced word, pending readers included, which then
    /// enters retirement: its allocation is freed at once when it had no
    /// readers, and otherwise waits — in the retirement station, or parked
    /// behind an earlier word — until the release of its last guard
    /// completes the free.  The shared side of the writer exclusion covers
    /// the swap, ordering it against any read-modify-write installer.
    pub fn write(&mut self, value: T)
        requires
            old(self)@.wf(),
            old(self)@.heap.len() + 1 <= u64::MAX,
        ensures
            final(self)@ == step_install(old(self)@, value),
            final(self)@.wf(),
            final(self)@.latest_value() == value,
    {
        let ghost m = old(self)@;
        proof {
            lemma_install(m, value);
        }
        let n: usize = self.heap.len();
        let new_ptr: u64 = (n as u64) + 1;
        self.heap.push(Some(value));
        let new_word = word_pack(new_ptr, 0);
        let token = acquire_shared(&self.update_token);
        let old_word = self.latest;
        self.latest = new_word;
        release_shared(token);
        proof {
            self.hist@ = self.hist@.push(new_ptr as nat);
            lemma_pack_fields(new_ptr, 0);
            let m1 = CellV {
                heap: m.heap.push(Some(value)),
                latest: WordV { ptr: (m.heap.len() + 1) as nat, cnt: 0 },
                hist: m.hist.push((m.heap.len() + 1) as nat),
                ..m
            };
            assert(self@.heap =~= m1.heap);
            assert(self@.hist =~= m1.hist);
            assert(self@ == m1);
            assert(word_view(old_word) == m.latest);
        }
        self.reclaim(old_word);
        proof {
            assert(self@ == step_install(m, value));
        }
    }

    /// Installs the value a function computes from the current one.
    ///
    /// The exclusive side of the writer exclusion is held from the read of
    /// the current value to the swap, so no other installer can displace —
    /// let alone retire — the allocation while `f` reads it, and two
    /// read-modify-write installers compose rather than race.
    pub fn update<F: Fn(&T) -> T>(&mut self, f: F)
        requires
            old(self)@.wf(),
            old(self)@.heap.len() + 1 <= u64::MAX,
            forall|x: &T| *x == old(self)@.latest_value() ==> call_requires(f, (x,)),
        ensures
            exists|nv: T|
                #[trigger] computes(f, old(self)@.latest_value(), nv) && final(self)@
                    == step_install(old(self)@, nv),
            final(self)@.wf(),
    {
        let ghost m = old(self)@;
        let token = acquire_exclusive(&self.update_token);
        proof {
            assert(allocated(m.heap, m.latest.ptr));
        }
        let p = word_ptr(self.latest);
        let n: usize = self.heap.len();
        proof {
            assert(p >= 1 && p - 1 < n);
        }
        let i: usize = (p - 1) as usize;
        let old_ref: &T = self.heap[i].as_ref().unwrap();
        proof {
            assert(*old_ref == m.latest_value());
        }
        let new_value = f(old_ref);
        let ghost nv = new_value;
        proof {
            lemma_install(m, nv);
        }
        let new_ptr: u64 = (n as u64) + 1;
        self.heap.push(Some(new_value));
        let new_word = word_pack(new_ptr, 0);
        let old_word = self.latest;
        self.latest = new_word;
        release_exclusive(token);
        proof {
            self.hist@ = self.hist@.push(new_ptr as nat);
            lemma_pack_fields(new_ptr, 0);
            let m1 = CellV {
                heap: m.heap.push(Some(nv)),
                latest: WordV { ptr: (m.heap.len() + 1) as nat, cnt: 0 },
                hist: m.hist.push((m.heap.len() + 1) as nat),
                ..m
            };
            assert(self@.heap =~= m1.heap);
            assert(self@.hist =~= m1.hist);
            assert(self@ == m1);
            assert(word_view(old_word) == m.latest);
        }
        self.reclaim(old_word);
        proof {
            assert(self@ == step_install(m, nv));
            assert(computes(f, m.latest_value(), nv));
        }
    }

    /// Releases a guard: the one decrement matching the guard's acquisition
    /// lands on whichever word still tracks the captured pointer — `latest`
    /// if no installation has displaced it, the retirement station or a
    /// parked word otherwise — and reclamation then takes whatever progress
    /// the decrement enabled.
    pub fn drop_guard(&mut self, guard: RcuGuard)
        requires
            old(self)@.wf(),
            old(self)@.guards.count(guard@) >= 1,
        ensures
            final(self)@ == step_release(old(self)@, guard@),
            final(self)@.wf(),
    {
        let ghost m = old(self)@;
        let ghost p = guard@;
        proof {
            lemma_release(m, p);
            self.guards@ = self.guards@.remove(p);
        }
        let lw = self.latest;
        if word_ptr(lw) == guard.ptr {
            proof {
                assert(cnt_of(lw) == m.guards.count(p));
            }
            self.latest = word_dec(lw);
            proof {
                lemma_pack_fields(ptr_of(lw), (cnt_of(lw) - 1) as u64);
                assert(self@ == step_release(m, p));
            }
            return ;
        }
        let tw = self.to_clear;
        if word_ptr(tw) == guard.ptr {
            let ghost s = CellV {
                to_clear: WordV { ptr: p, cnt: (m.to_clear.cnt - 1) as nat },
                guards: m.guards.remove(p),
                ..m
            };
            proof {
                assert(cnt_of(tw) == m.guards.count(p));
            }
            self.to_clear = word_dec(tw);
            proof {
                lemma_pack_fields(ptr_of(tw), (cnt_of(tw) - 1) as u64);
                assert(self@ == s);
            }
            self.pump();
            proof {
                assert(self@ == step_release(m, p));
            }
            return ;
        }
        proof {
            assert(m.tracks(p));
        }
        let ghost rm = CellV { guards: m.guards.remove(p), ..m };
        proof {
            assert(self@ == rm);
        }
        let mut i: usize = 0;
        while i < self.retiring.len()
            invariant
                m == old(self)@,
                self@ == (CellV { guards: m.guards.remove(p), ..m }),
                m.wf(),
                m.guards.count(p) >= 1,
                p != m.latest.ptr,
                p != m.to_clear.ptr,
                guard@ == p,
                guard.ptr as nat == p,
                0 <= i <= self.retiring@.len(),
                self.retiring@.len() == m.retiring.len(),
                forall|k: int| 0 <= k < i ==> m.retiring[k].ptr != p,
                exists|k: int| i <= k < m.retiring.len() && (#[trigger] m.retiring[k]).ptr == p,
            decreases self.retiring@.len() - i,
        {
            let w = self.retiring[i];
            let ghost v = self.retiring@;
            proof {
                assert(self@.retiring[i as int] == word_view(v[i as int]));
                assert(word_view(w) == m.retiring[i as int]);
            }
            if word_ptr(w) == guard.ptr {
                proof {
                    assert(m.retiring[i as int].ptr == p);
                    assert(cnt_of(w) == m.guards.count(p));
                    assert forall|k: int|
                        0 <= k < v.len() implies #[trigger] word_view(v[k])
                        == m.retiring[k] by {
                        assert(self@.retiring[k] == word_view(v[k]));
                    }
                }
                self.retiring[i] = word_dec(w);
                proof {
                    lemma_release(m, p);
                    lemma_pack_fields(ptr_of(w), (cnt_of(w) - 1) as u64);
                    let ci = choose|ci: int|
                        0 <= ci < m.retiring.len() && (#[trigger] m.retiring[ci]).ptr == p;
                    lemma_retiring_index_unique(m, ci, i as int);
                    let s = CellV {
                        retiring: m.retiring.update(
                            i as int,
                            WordV { ptr: p, cnt: (m.retiring[i as int].cnt - 1) as nat },
                        ),
                        guards: m.guards.remove(p),
                        ..m
                    };
                    assert forall|k: int|
                        0 <= k < self@.retiring.len() implies self@.retiring[k]
                        == s.retiring[k] by {
                        assert(self@.retiring[k] == word_view(self.retiring@[k]));
                        if k != i {
                            assert(self.retiring@[k] == v[k]);
                            assert(word_view(v[k]) == m.retiring[k]);
                        }
                    }
                    assert(self@.retiring =~= s.retiring);
                    assert(self@ == s);
                    assert(self@ == step_release(m, p));
                    assert(self@.wf());
                }
                return ;
            }
            proof {
                let k = choose|k: int|
                    i <= k < m.retiring.len() && (#[trigger] m.retiring[k]).ptr == p;
                assert(k != i);
            }
            i = i + 1;
        }
        proof {
            assert(false);
        }
    }

    /// The pointer currently named by `latest`.
    pub fn latest_ptr(&self) -> (p: u64)
        ensures
            p as nat == self@.latest.ptr,
    {
        word_ptr(self.latest)
    }

    /// The reader count currently charged against `latest`.
    pub fn reader_count(&self) -> (c: u64)
        ensures
            c as nat == self@.latest.cnt,
    {
        word_cnt(self.latest)
    }

    /// The pointer in the retirement station, or zero if the station is
    /// empty.
    pub fn station_ptr(&self) -> (p: u64)
        ensures
            p as nat == self@.to_clear.ptr,
    {
        word_ptr(self.to_clear)
    }

    /// The reader count still to drain from the retirement station.
    pub fn station_count(&self) -> (c: u64)
        ensures
            c as nat == self@.to_clear.cnt,
    {
        word_cnt(self.to_clear)
    }

    /// How many displaced words are parked waiting for the station.
    pub fn parked_count(&self) -> (n: usize)
        ensures
            n == self@.retiring.len(),
    {
        self.retiring.len()
    }

    /// How many allocations the cell has ever made.
    pub fn allocation_count(&self) -> (n: usize)
        ensures
            n == self@.heap.len(),
    {
        self.heap.len()
    }

    /// How many allocations are currently live.  In a well-formed cell these
    /// are exactly the allocations its words still name; every other
    /// allocation has been freed, each exactly once.
    pub fn live_count(&self) -> (n: usize)
        ensures
            n == num_live(self@.heap),
    {
        let mut n: usize = 0;
        let mut i: usize = 0;
        while i < self.heap.len()
            invariant
                i <= self.heap@.len(),
                n <= i,
                n == num_live(self.heap@.take(i as int)),
            decreases self.heap@.len() - i,
        {
            if self.heap[i].is_some() {
                n = n + 1;
            }
            i = i + 1;
            proof {
                assert(self.heap@.take(i as int).drop_last() =~= self.heap@.take(i as int - 1));
                assert(self.heap@.take(i as int).last() == self.heap@[i as int - 1]);
            }
        }
        proof {
            assert(self.heap@.take(self.heap@.len() as int) =~= self.heap@);
        }
        n
    }
}

impl RcuGuard {
    /// The pointer this guard captured at acquisition.
    pub fn captured(&self) -> (p: u64)
        ensures
            p as nat == self@,
    {
        self.ptr
    }
}

/// `y` is a value `f` may return when applied to `x`.
pub open spec fn computes<T, F: Fn(&T) -> T>(f: F, x: T, y: T) -> bool {
    exists|r: &T| *r == x && call_ensures(f, (r,), y)
}

} // verus!
