//! Bounded nearest-entry selection by shift insertion.
//!
//! Entries are offered one at a time as `(key, item)`; the selection keeps
//! the `cap` entries that come first when every offered entry is ordered by
//! key, ties broken by the order in which they were offered. The selection
//! starts out holding `cap` placeholder entries whose key is
//! `UNREACHED_KEY`, so an entry enters only when its key is strictly
//! smaller than the key of the current last slot.
//!
//! Keys are the IEEE-754 bit patterns of non-negative distances, whose
//! integer order is the order of the distances themselves.

use vstd::prelude::*;
use vstd::set_lib::*;
use vstd::assert_seqs_equal;

verus! {

/// Bit pattern of `f32::INFINITY`: the key of a placeholder entry.
pub const UNREACHED_KEY: u32 = 0x7f80_0000;

/// Entry `a` of `s` comes before entry `b`: smaller key, or equal key and
/// offered earlier.
pub open spec fn precedes<T>(s: Seq<(u32, T)>, a: int, b: int) -> bool {
    s[a].0 < s[b].0 || (s[a].0 == s[b].0 && a < b)
}

/// Indices of the entries of `s` that come before entry `i`.
pub open spec fn preceding<T>(s: Seq<(u32, T)>, i: int) -> Set<int> {
    Set::new(|j: int| 0 <= j < s.len() && precedes(s, j, i))
}

/// Position of entry `i` when all entries of `s` are ordered by key and
/// then by offer order.
pub open spec fn rank<T>(s: Seq<(u32, T)>, i: int) -> nat {
    preceding(s, i).len()
}

/// The entry of `s` at position `r` of that order.
pub open spec fn entry_at_rank<T>(s: Seq<(u32, T)>, r: nat) -> (u32, T) {
    s[choose|i: int| 0 <= i < s.len() && rank(s, i) == r]
}

/// The first `cap` entries of `s` in that order.
pub open spec fn selection<T>(s: Seq<(u32, T)>, cap: nat) -> Seq<(u32, T)> {
    Seq::new(cap, |r: int| entry_at_rank(s, r as nat))
}

/// Keys of the selection.
pub open spec fn selected_keys<T>(s: Seq<(u32, T)>, cap: nat) -> Seq<u32> {
    Seq::new(cap, |r: int| entry_at_rank(s, r as nat).0)
}

/// Items of the selection.
pub open spec fn selected_items<T>(s: Seq<(u32, T)>, cap: nat) -> Seq<T> {
    Seq::new(cap, |r: int| entry_at_rank(s, r as nat).1)
}

/// `cap` placeholder entries carrying `fill`.
pub open spec fn placeholders<T>(cap: nat, fill: T) -> Seq<(u32, T)> {
    Seq::new(cap, |i: int| (UNREACHED_KEY, fill))
}

pub proof fn lemma_rank_bounds<T>(s: Seq<(u32, T)>, i: int)
    requires
        0 <= i < s.len(),
    ensures
        preceding(s, i).finite(),
        rank(s, i) < s.len(),
{
    lemma_int_range(0, s.len() as int);
    let r = set_int_range(0, s.len() as int);
    assert(preceding(s, i).subset_of(r.remove(i)));
    lemma_len_subset(preceding(s, i), r.remove(i));
}

/// An entry that comes first has the smaller rank.
pub proof fn lemma_rank_strict<T>(s: Seq<(u32, T)>, a: int, b: int)
    requires
        0 <= a < s.len(),
        0 <= b < s.len(),
        precedes(s, a, b),
    ensures
        rank(s, a) < rank(s, b),
{
    lemma_rank_bounds(s, a);
    lemma_rank_bounds(s, b);
    let pa = preceding(s, a);
    let pb = preceding(s, b);
    assert(pa.insert(a).subset_of(pb));
    assert(!pa.contains(a));
    lemma_len_subset(pa.insert(a), pb);
}

/// Distinct entries have distinct ranks.
pub proof fn lemma_rank_injective<T>(s: Seq<(u32, T)>, a: int, b: int)
    requires
        0 <= a < s.len(),
        0 <= b < s.len(),
        a != b,
    ensures
        rank(s, a) != rank(s, b),
{
    if precedes(s, a, b) {
        lemma_rank_strict(s, a, b);
    } else {
        lemma_rank_strict(s, b, a);
    }
}

/// Offering a new entry moves an earlier entry back by one exactly when the
/// new key is strictly smaller.
pub proof fn lemma_rank_after_push<T>(s: Seq<(u32, T)>, e: (u32, T), i: int)
    requires
        0 <= i < s.len(),
    ensures
        rank(s.push(e), i) == rank(s, i) + (if e.0 < s[i].0 { 1nat } else { 0nat }),
{
    let t = s.push(e);
    let n = s.len() as int;
    lemma_rank_bounds(s, i);
    assert forall|j: int| 0 <= j < n implies precedes(t, j, i) == precedes(s, j, i) by {}
    if e.0 < s[i].0 {
        assert(preceding(t, i) =~= preceding(s, i).insert(n));
        assert(!preceding(s, i).contains(n));
    } else {
        assert(preceding(t, i) =~= preceding(s, i));
    }
}

pub proof fn lemma_placeholder_ranks<T>(cap: nat, fill: T, i: int)
    requires
        0 <= i < cap,
    ensures
        rank(placeholders(cap, fill), i) == i,
{
    let s = placeholders(cap, fill);
    assert(preceding(s, i) =~= set_int_range(0, i));
    lemma_int_range(0, i);
}

/// The `cap` entries of the selection, kept sorted by key.
pub struct Nearest<T> {
    keys: Vec<u32>,
    items: Vec<T>,
    history: Ghost<Seq<(u32, T)>>,
    slots: Ghost<Seq<int>>,
}

impl<T: Copy> Nearest<T> {
    /// Every entry offered so far, the placeholders first.
    pub closed spec fn history(&self) -> Seq<(u32, T)> {
        self.history@
    }

    /// Number of entries kept.
    pub closed spec fn capacity(&self) -> nat {
        self.keys@.len()
    }

    /// Slot `r` holds the entry of rank `r` among everything offered.
    pub closed spec fn wf(&self) -> bool {
        let h = self.history@;
        let cap = self.keys@.len();
        &&& self.items@.len() == cap
        &&& self.slots@.len() == cap
        &&& cap <= h.len()
        &&& forall|r: int|
            #![trigger self.slots@[r]]
            0 <= r < cap ==> {
                &&& 0 <= self.slots@[r] < h.len()
                &&& rank(h, self.slots@[r]) == r
                &&& h[self.slots@[r]] == (self.keys@[r], self.items@[r])
            }
    }

    proof fn lemma_slot_is_entry_at_rank(&self, r: int)
        requires
            self.wf(),
            0 <= r < self.capacity(),
        ensures
            entry_at_rank(self.history(), r as nat) == (self.keys@[r], self.items@[r]),
    {
        let h = self.history@;
        let sr = self.slots@[r];
        assert(0 <= sr < h.len() && rank(h, sr) == r);
        let c = choose|i: int| 0 <= i < h.len() && rank(h, i) == r as nat;
        if c != sr {
            lemma_rank_injective(h, c, sr);
        }
    }

    proof fn lemma_view(&self)
        requires
            self.wf(),
        ensures
            self.keys@ == selected_keys(self.history(), self.capacity()),
            self.items@ == selected_items(self.history(), self.capacity()),
    {
        assert_seqs_equal!(self.keys@, selected_keys(self.history(), self.capacity()), r => {
            self.lemma_slot_is_entry_at_rank(r);
        });
        assert_seqs_equal!(self.items@, selected_items(self.history(), self.capacity()), r => {
            self.lemma_slot_is_entry_at_rank(r);
        });
    }

    /// Keys of the kept entries, smallest first.
    pub fn keys(&self) -> (r: &Vec<u32>)
        requires
            self.wf(),
        ensures
            r@ == selected_keys(self.history(), self.capacity()),
    {
        proof {
            self.lemma_view();
        }
        &self.keys
    }

    /// Index in `history()` of the entry kept in slot `q`.
    pub closed spec fn source_of(&self, q: int) -> int {
        self.slots@[q]
    }

    /// Items of the kept entries, in the order of their keys; slot `q`
    /// holds the item of offered entry `source_of(q)`.
    pub fn items(&self) -> (r: &Vec<T>)
        requires
            self.wf(),
        ensures
            r@ == selected_items(self.history(), self.capacity()),
            forall|q: int|
                0 <= q < r@.len() ==> 0 <= #[trigger] self.source_of(q) < self.history().len()
                    && self.history()[self.source_of(q)].1 == r@[q],
    {
        proof {
            self.lemma_view();
        }
        &self.items
    }

    /// No entry left out has a smaller key than a kept one: the kept entries
    /// are the nearest.
    pub proof fn lemma_kept_entries_are_nearest(&self, i: int, r: int)
        requires
            self.wf(),
            0 <= i < self.history().len(),
            0 <= r < self.capacity(),
            forall|q: int| 0 <= q < self.capacity() ==> #[trigger] self.source_of(q) != i,
        ensures
            self.history()[self.source_of(r)].0 <= self.history()[i].0,
    {
        let h = self.history@;
        let sr = self.slots@[r];
        assert(rank(h, sr) == r);
        lemma_rank_bounds(h, i);
        if rank(h, i) < self.capacity() {
            let q = rank(h, i) as int;
            assert(rank(h, self.slots@[q]) == q);
            if self.slots@[q] != i {
                lemma_rank_injective(h, self.slots@[q], i);
            }
            assert(self.source_of(q) == i);
        }
        if h[i].0 < self.keys@[r] {
            assert(precedes(h, i, sr));
            lemma_rank_strict(h, i, sr);
        }
    }

    /// Gives up the selection, returning the kept items. Distinct slots hold
    /// distinct offered entries.
    pub fn into_items(self) -> (r: Vec<T>)
        requires
            self.wf(),
        ensures
            r@ == selected_items(self.history(), self.capacity()),
            forall|q: int|
                0 <= q < r@.len() ==> 0 <= #[trigger] self.source_of(q) < self.history().len()
                    && self.history()[self.source_of(q)].1 == r@[q] && rank(
                    self.history(),
                    self.source_of(q),
                ) == q,
            forall|q1: int, q2: int|
                0 <= q1 < r@.len() && 0 <= q2 < r@.len() && q1 != q2 ==> #[trigger] self.source_of(q1)
                    != #[trigger] self.source_of(q2),
    {
        proof {
            self.lemma_view();
            assert forall|q1: int, q2: int|
                0 <= q1 < self.capacity() && 0 <= q2 < self.capacity() && q1 != q2 implies #[trigger] self.source_of(q1)
                    != #[trigger] self.source_of(q2) by {
                assert(rank(self.history@, self.slots@[q1]) == q1);
                assert(rank(self.history@, self.slots@[q2]) == q2);
            }
        }
        self.items
    }

    proof fn lemma_sorted(&self, a: int, b: int)
        requires
            self.wf(),
            0 <= a < b < self.capacity(),
        ensures
            self.keys@[a] <= self.keys@[b],
    {
        let h = self.history@;
        if self.keys@[a] > self.keys@[b] {
            assert(precedes(h, self.slots@[b], self.slots@[a]));
            lemma_rank_strict(h, self.slots@[b], self.slots@[a]);
        }
    }

    /// A selection of `cap` placeholder entries carrying `fill`.
    pub fn new(cap: usize, fill: T) -> (r: Self)
        ensures
            r.wf(),
            r.capacity() == cap,
            r.history() == placeholders(cap as nat, fill),
    {
        let mut keys: Vec<u32> = Vec::new();
        let mut items: Vec<T> = Vec::new();
        let mut i: usize = 0;
        while i < cap
            invariant
                i <= cap,
                keys@.len() == i,
                items@.len() == i,
                forall|j: int| 0 <= j < i ==> keys@[j] == UNREACHED_KEY,
                forall|j: int| 0 <= j < i ==> items@[j] == fill,
            decreases cap - i,
        {
            keys.push(UNREACHED_KEY);
            items.push(fill);
            i += 1;
        }
        let ghost h = placeholders(cap as nat, fill);
        let ghost slots = Seq::new(cap as nat, |i: int| i);
        proof {
            assert forall|r: int| 0 <= r < cap implies rank(h, r) == r by {
                lemma_placeholder_ranks(cap as nat, fill, r);
            }
        }
        Nearest { keys, items, history: Ghost(h), slots: Ghost(slots) }
    }

    /// Offers `(key, item)`: it takes the slot of its rank when that rank is
    /// below the capacity, and the later slots move back by one.
    pub fn offer(&mut self, key: u32, item: T)
        requires
            old(self).wf(),
            old(self).capacity() > 0,
        ensures
            final(self).wf(),
            final(self).capacity() == old(self).capacity(),
            final(self).history() == old(self).history().push((key, item)),
    {
        let ghost h = self.history@;
        let ghost n = h.len() as int;
        let ghost h2 = h.push((key, item));
        let ghost old_keys = self.keys@;
        let ghost old_items = self.items@;
        let ghost old_slots = self.slots@;
        let last = self.keys.len() - 1;
        if key < self.keys[last] {
            let mut p = last;
            while p > 0 && self.keys[p - 1] > key
                invariant
                    p <= last,
                    last + 1 == old_keys.len(),
                    self.keys@.len() == old_keys.len(),
                    self.items@.len() == old_items.len(),
                    old_items.len() == old_keys.len(),
                    forall|q: int| 0 <= q < p ==> self.keys@[q] == old_keys[q],
                    forall|q: int| 0 <= q < p ==> self.items@[q] == old_items[q],
                    forall|q: int| p < q <= last ==> self.keys@[q] == old_keys[q - 1],
                    forall|q: int| p < q <= last ==> self.items@[q] == old_items[q - 1],
                    forall|q: int| p <= q < last ==> old_keys[q] > key,
                decreases p,
            {
                let kp = self.keys[p - 1];
                let ip = self.items[p - 1];
                self.keys.set(p, kp);
                self.items.set(p, ip);
                p -= 1;
            }
            self.keys.set(p, key);
            self.items.set(p, item);
            let ghost new_slots = old_slots.subrange(0, p as int).push(n) + old_slots.subrange(
                p as int,
                last as int,
            );
            proof {
                // entries kept before position p have keys at most `key`
                assert forall|r: int| 0 <= r < p implies old_keys[r] <= key by {
                    if old_keys[r] > key {
                        // sorted: old_keys[r] <= old_keys[p - 1] <= key
                        let a = old_slots[r];
                        let b = old_slots[p - 1];
                        if r < p - 1 {
                            assert(old_keys[r] > old_keys[p - 1]);
                            assert(precedes(h, b, a));
                            lemma_rank_strict(h, b, a);
                        }
                    }
                }
                assert forall|r: int| 0 <= r <= last implies rank(h2, #[trigger] new_slots[r]) == r
                    && 0 <= new_slots[r] < h2.len() && h2[new_slots[r]] == (
                    self.keys@[r],
                    self.items@[r],
                ) by {
                    if r < p {
                        assert(new_slots[r] == old_slots[r]);
                        lemma_rank_after_push(h, (key, item), old_slots[r]);
                    } else if r == p {
                        assert(new_slots[r] == n);
                        self.lemma_new_entry_rank(h, old_keys, old_slots, key, item, p as int, last as int);
                    } else {
                        assert(new_slots[r] == old_slots[r - 1]);
                        lemma_rank_after_push(h, (key, item), old_slots[r - 1]);
                    }
                }
            }
            self.history = Ghost(h2);
            self.slots = Ghost(new_slots);
        } else {
            proof {
                assert forall|r: int| 0 <= r <= last implies rank(h2, #[trigger] old_slots[r]) == r by {
                    lemma_rank_after_push(h, (key, item), old_slots[r]);
                    if r < last {
                        self.lemma_sorted(r, last as int);
                    }
                }
            }
            self.history = Ghost(h2);
        }
    }

    /// Entries not kept before position `p` all have keys above `key`, so
    /// the new entry's rank is `p`.
    proof fn lemma_new_entry_rank(
        &self,
        h: Seq<(u32, T)>,
        old_keys: Seq<u32>,
        old_slots: Seq<int>,
        key: u32,
        item: T,
        p: int,
        last: int,
    )
        requires
            0 <= p <= last,
            last + 1 == old_keys.len(),
            old_slots.len() == old_keys.len(),
            last < h.len(),
            forall|r: int|
                #![trigger old_slots[r]]
                0 <= r <= last ==> {
                    &&& 0 <= old_slots[r] < h.len()
                    &&& rank(h, old_slots[r]) == r
                    &&& h[old_slots[r]].0 == old_keys[r]
                },
            forall|r: int| 0 <= r < p ==> old_keys[r] <= key,
            forall|q: int| p <= q < last ==> old_keys[q] > key,
            key < old_keys[last],
        ensures
            rank(h.push((key, item)), h.len() as int) == p,
    {
        let h2 = h.push((key, item));
        let n = h.len() as int;
        let kept = old_slots.subrange(0, p);
        assert forall|j: int| 0 <= j < n && h[j].0 <= key implies kept.contains(j) by {
            let sl = old_slots[last];
            assert(precedes(h, j, sl));
            lemma_rank_strict(h, j, sl);
            lemma_rank_bounds(h, j);
            let r = rank(h, j) as int;
            assert(0 <= r < last);
            let sr = old_slots[r];
            if sr != j {
                lemma_rank_injective(h, sr, j);
            }
            assert(old_keys[r] <= key);
            assert(r < p);
            assert(kept[r] == j);
        }
        assert(preceding(h2, n) =~= kept.to_set()) by {
            assert forall|j: int| preceding(h2, n).contains(j) implies kept.to_set().contains(j) by {
                assert(h2[j] == h[j]);
            }
            assert forall|j: int| kept.to_set().contains(j) implies preceding(h2, n).contains(j) by {
                let r = choose|r: int| 0 <= r < kept.len() && kept[r] == j;
                assert(old_slots[r] == j);
                assert(h2[j] == h[j]);
            }
        }
        assert(kept.no_duplicates()) by {
            assert forall|a: int, b: int| 0 <= a < kept.len() && 0 <= b < kept.len() && a != b implies kept[a]
                != kept[b] by {
                assert(old_slots[a] == kept[a] && old_slots[b] == kept[b]);
            }
        }
        kept.unique_seq_to_set();
    }
}

} // verus!
