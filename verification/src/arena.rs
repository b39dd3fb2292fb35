use vstd::prelude::*;
use vstd::seq_lib::*;
use vstd::set_lib::*;

use crate::error::HandleError;
use crate::handle::Handle;

verus! {

/// The largest number of slots an arena may ever hold. Asking for more is a
/// configuration error, not a recoverable one.
pub const MAX_CAPACITY: usize = 0x7FFF;

/// Every arena holds at least this many slots, so the free list is never
/// empty even before the first insertion.
pub const MIN_CAPACITY: usize = 4;

/// A slot's payload: a live value, a link to the next free slot, or the
/// single terminator that ends the free list.
#[derive(Debug, Clone)]
pub enum EntryState<T> {
    /// The slot holds a live value; its version is even.
    Active(T),
    /// The slot is free; the field is the index of the next free slot.
    InFreeList(u16),
    /// The slot is free and is the last one on the free list.
    EndOfFreeList,
}

impl<T> EntryState<T> {
    /// Whether this is the free list's terminator.
    pub fn is_end_of_list(&self) -> (r: bool)
        ensures
            r == (self is EndOfFreeList),
    {
        match self {
            EntryState::EndOfFreeList => true,
            _ => false,
        }
    }

    /// Whether the slot holding this state is occupied.
    pub fn is_occupied(&self) -> (r: bool)
        ensures
            r == (self is Active),
    {
        self.get_item().is_some()
    }

    /// The stored value, while the slot is occupied.
    pub fn get_item(&self) -> (r: Option<&T>)
        ensures
            r is Some <==> self is Active,
            r matches Some(v) ==> *v == self->Active_0,
    {
        match self {
            EntryState::Active(v) => Some(v),
            _ => None,
        }
    }

    /// The stored value, mutably, while the slot is occupied.
    pub fn get_item_mut(&mut self) -> (r: Option<&mut T>)
        ensures
            r is Some <==> *old(self) is Active,
            r matches Some(v) ==> *v == (*old(self))->Active_0,
            r is Some ==> *final(self) == EntryState::Active(*final(r.unwrap())),
            r is None ==> *final(self) == *old(self),
    {
        match self {
            EntryState::Active(v) => Some(v),
            _ => None,
        }
    }
}

/// One slot of the arena: a generation counter and the slot's payload.
#[derive(Debug, Clone)]
pub struct Entry<T> {
    /// Generation counter: even exactly while the slot is occupied, never 0.
    pub version: u16,
    /// What the slot currently holds.
    pub state: EntryState<T>,
}

/// A generational slot arena.
///
/// Slots are reached through [`Handle`]s issued by [`HandleMap::insert`].
/// Free slots form a singly linked list threaded through the slot storage
/// itself, so allocation and deallocation are O(1). The list is mirrored by
/// the ghost field `free_order`, which records the indices of the free slots
/// in traversal order; the invariant [`HandleMap::wf`] ties the two together.
#[derive(Clone)]
pub struct HandleMap<T> {
    /// Instance id stamped into every handle this arena issues.
    pub id: u16,
    /// Index of the first slot on the free list; the list is never empty.
    pub first_free: u16,
    /// Number of occupied slots; always less than the number of slots.
    pub num_entries: usize,
    /// The slot storage; its length is the arena's capacity.
    pub entries: Vec<Entry<T>>,
    /// The indices of the free slots, in free-list traversal order.
    pub free_order: Ghost<Seq<int>>,
}

impl<T> HandleMap<T> {
    /// The arena's capacity: the number of slots that exist.
    pub open spec fn cap(self) -> int {
        self.entries@.len() as int
    }

    /// The free-list traversal order, as a sequence of slot indices.
    pub open spec fn free_seq(self) -> Seq<int> {
        self.free_order@
    }

    /// Whether slot `i` is free (a member of the free list).
    pub open spec fn slot_free(self, i: int) -> bool {
        !(self.entries@[i].state is Active)
    }

    /// Whether slot `i` is a free-list link pointing at slot `j`.
    pub open spec fn slot_links(self, i: int, j: int) -> bool {
        self.entries@[i].state matches EntryState::InFreeList(n) && n as int == j
    }

    /// Whether slot `i` is the free list's terminator.
    pub open spec fn slot_end(self, i: int) -> bool {
        self.entries@[i].state is EndOfFreeList
    }

    /// The value held by slot `i` (meaningful only while the slot is
    /// occupied).
    pub open spec fn value_at(self, i: int) -> T {
        self.entries@[i].state->Active_0
    }

    /// The free list starts at `first_free`, each link points at the next
    /// free index, the last free index is the unique terminator, and no index
    /// repeats.
    pub open spec fn free_list_linked(self) -> bool {
        let fs = self.free_seq();
        &&& fs.len() >= 1
        &&& fs[0] == self.first_free as int
        &&& forall|k: int| 0 <= k < fs.len() ==> 0 <= #[trigger] fs[k] < self.cap()
        &&& forall|k: int| 0 <= k < fs.len() - 1 ==> self.slot_links(#[trigger] fs[k], fs[k + 1])
        &&& self.slot_end(fs[fs.len() - 1])
        &&& fs.no_duplicates()
    }

    /// The free list visits exactly the slots that are free.
    pub open spec fn free_list_covers(self) -> bool {
        forall|i: int|
            0 <= i < self.cap() ==> (#[trigger] self.slot_free(i) <==> self.free_seq().contains(
                i,
            ))
    }

    /// A slot's version is even exactly while the slot is occupied, and is
    /// never the value zero.
    pub open spec fn versions_mark_occupancy(self) -> bool {
        forall|i: int|
            0 <= i < self.cap() ==> ((#[trigger] self.entries@[i].version) % 2 == 0
                <==> !self.slot_free(i)) && self.entries@[i].version != 0
    }

    /// The arena's invariant: established by construction, preserved by every
    /// operation, and relied on by all of them.
    pub open spec fn wf(self) -> bool {
        &&& MIN_CAPACITY <= self.entries@.len() <= MAX_CAPACITY
        &&& self.free_seq().len() + self.num_entries == self.entries@.len()
        &&& self.free_list_linked()
        &&& self.free_list_covers()
        &&& self.versions_mark_occupancy()
    }

    /// The outcome of validating handle `h` against this arena, in order:
    /// instance id, then index bound, then version.
    pub open spec fn check_spec(self, h: Handle) -> Result<u16, HandleError> {
        if h.map_id != self.id {
            Err(HandleError::WrongMap)
        } else if h.index as int >= self.cap() {
            Err(HandleError::IndexPastEnd)
        } else if self.entries@[h.index as int].version != h.version {
            Err(HandleError::StaleVersion)
        } else {
            Ok(h.index)
        }
    }
}

/// A sequence of distinct indices drawn from `[0, cap)` that misses at least
/// one index of that range cannot fill the whole range.
proof fn lemma_free_seq_misses_slot(fs: Seq<int>, cap: int, idx: int)
    requires
        fs.no_duplicates(),
        forall|k: int| 0 <= k < fs.len() ==> 0 <= #[trigger] fs[k] < cap,
        !fs.contains(idx),
        0 <= idx < cap,
    ensures
        fs.len() < cap,
{
    fs.unique_seq_to_set();
    let s = fs.to_set();
    let r = set_int_range(0, cap).remove(idx);
    assert forall|x: int| s.contains(x) implies r.contains(x) by {
        assert(fs.contains(x));
    }
    lemma_int_range(0, cap);
    assert(set_int_range(0, cap).contains(idx));
    lemma_len_subset(s, r);
}

/// Two disjoint finite sets contribute their sizes in full to their union.
proof fn lemma_disjoint_union_len<A>(s1: Set<A>, s2: Set<A>)
    requires
        s1.finite(),
        s2.finite(),
        forall|x: A| !(#[trigger] s1.contains(x) && s2.contains(x)),
    ensures
        s1.union(s2).len() == s1.len() + s2.len(),
    decreases s1.len(),
{
    if s1.len() == 0 {
        s1.lemma_len0_is_empty();
        assert(s1.union(s2) =~= s2);
    } else {
        let a = s1.choose();
        assert(s1.contains(a));
        assert(!s2.contains(a));
        lemma_disjoint_union_len(s1.remove(a), s2);
        assert(s1.union(s2).remove(a) =~= s1.remove(a).union(s2));
        assert(s1.union(s2).contains(a));
        assert(s1.union(s2).len() == s1.union(s2).remove(a).len() + 1);
    }
}

impl<T> HandleMap<T> {
    /// Law: the occupied count is exactly the number of occupied slots — the
    /// free list visits every other slot once, so no slot is lost and none
    /// is double-counted.
    pub proof fn lemma_occupied_counts_active_slots(self)
        requires
            self.wf(),
        ensures
            Set::new(|i: int| 0 <= i < self.cap() && !self.slot_free(i)).len()
                == self.num_entries,
    {
        let act = Set::new(|i: int| 0 <= i < self.cap() && !self.slot_free(i));
        let fre = Set::new(|i: int| 0 <= i < self.cap() && self.slot_free(i));
        let fs = self.free_seq();
        assert forall|x: int| fre.contains(x) implies fs.to_set().contains(x) by {
            assert(self.slot_free(x));
            assert(fs.contains(x));
        }
        assert forall|x: int| fs.to_set().contains(x) implies fre.contains(x) by {
            assert(fs.contains(x));
            let k = choose|k: int| 0 <= k < fs.len() && fs[k] == x;
            assert(0 <= fs[k] < self.cap());
            assert(self.slot_free(x));
        }
        assert(fre =~= fs.to_set());
        fs.unique_seq_to_set();
        lemma_int_range(0, self.cap());
        assert(act.union(fre) =~= set_int_range(0, self.cap()));
        lemma_len_subset(act, set_int_range(0, self.cap()));
        lemma_len_subset(fre, set_int_range(0, self.cap()));
        lemma_disjoint_union_len(act, fre);
    }

    /// Law: an arena never has every slot occupied; the occupied count stays
    /// strictly below the capacity, so the free list is never empty.
    pub proof fn lemma_occupied_below_capacity(self)
        requires
            self.wf(),
        ensures
            self.num_entries < self.entries@.len(),
    {
    }

    /// Create an arena with the default capacity.
    pub fn new() -> (r: Self)
        ensures
            r.wf(),
            r.num_entries == 0,
            r.entries@.len() == MIN_CAPACITY,
    {
        Self::new_with_capacity(MIN_CAPACITY)
    }

    /// Create an arena with room for at least `request` values before the
    /// first growth. The capacity actually allocated may be larger.
    ///
    /// The request must not exceed [`MAX_CAPACITY`]; a larger arena can never
    /// be configured.
    pub fn new_with_capacity(request: usize) -> (r: Self)
        requires
            request <= MAX_CAPACITY,
        ensures
            r.wf(),
            r.num_entries == 0,
            r.entries@.len() == if request < MIN_CAPACITY {
                MIN_CAPACITY as int
            } else {
                request as int
            },
            forall|i: int|
                0 <= i < r.entries@.len() ==> (#[trigger] r.entries@[i]).version == 1
                    && r.slot_free(i),
            r.first_free == 0,
            r.free_seq() == Seq::new(r.entries@.len(), |k: int| k),
    {
        let capacity = if request < MIN_CAPACITY {
            MIN_CAPACITY
        } else {
            request
        };
        let id = next_handle_map_id();
        let mut entries: Vec<Entry<T>> = Vec::new();
        let mut i: usize = 0;
        while i < capacity - 1
            invariant
                i <= capacity - 1,
                MIN_CAPACITY <= capacity <= MAX_CAPACITY,
                entries@.len() == i,
                forall|j: int|
                    0 <= j < i ==> (#[trigger] entries@[j]).version == 1 && entries@[j].state
                        == EntryState::<T>::InFreeList((j + 1) as u16),
            decreases capacity - 1 - i,
        {
            entries.push(
                Entry { version: 1, state: EntryState::InFreeList(to_u16(i + 1)) },
            );
            i = i + 1;
        }
        entries.push(Entry { version: 1, state: EntryState::EndOfFreeList });
        let m = HandleMap {
            id,
            first_free: 0,
            num_entries: 0,
            entries,
            free_order: Ghost(Seq::new(capacity as nat, |k: int| k)),
        };
        proof {
            let fs = m.free_order@;
            assert forall|k: int| 0 <= k < fs.len() - 1 implies m.slot_links(
                #[trigger] fs[k],
                fs[k + 1],
            ) by {
                assert(fs[k] == k);
                assert(fs[k + 1] == k + 1);
                assert(m.entries@[k].state == EntryState::<T>::InFreeList((k + 1) as u16));
            }
            assert(m.slot_end(fs[fs.len() - 1]));
            assert forall|i2: int| 0 <= i2 < m.cap() implies (#[trigger] m.slot_free(i2)
                <==> fs.contains(i2)) by {
                assert(fs[i2] == i2);
                assert(m.slot_free(i2));
            }
        }
        m
    }

    /// The number of occupied slots.
    pub fn len(&self) -> (r: usize)
        ensures
            r == self.num_entries,
    {
        self.num_entries
    }

    /// The number of slots that exist, occupied or free.
    pub fn capacity(&self) -> (r: usize)
        ensures
            r == self.entries@.len(),
    {
        self.entries.len()
    }

    /// Validate `h` against this arena: instance id, then index bound, then
    /// version, short-circuiting at the first failure. Returns the slot index
    /// on success.
    fn check_handle(&self, h: Handle) -> (r: Result<usize, HandleError>)
        ensures
            r is Ok <==> self.check_spec(h) is Ok,
            r matches Ok(i) ==> i == h.index as usize && i < self.entries@.len(),
            r matches Err(e) ==> self.check_spec(h) == Err::<u16, HandleError>(e),
    {
        if h.map_id != self.id {
            return Err(HandleError::WrongMap);
        }
        let index = h.index as usize;
        if index >= self.entries.len() {
            return Err(HandleError::IndexPastEnd);
        }
        if self.entries[index].version != h.version {
            return Err(HandleError::StaleVersion);
        }
        Ok(index)
    }

    /// Borrow the value `h` refers to, or report exactly why `h` does not
    /// currently refer to one.
    ///
    /// Handles with odd versions are never issued; see `check_spec` for the
    /// exact error returned for each rejected handle.
    pub fn get<'a>(&'a self, h: Handle) -> (r: Result<&'a T, HandleError>)
        requires
            self.wf(),
            h.version % 2 == 0,
        ensures
            r is Ok <==> self.check_spec(h) is Ok,
            r matches Ok(v) ==> *v == self.value_at(h.index as int),
            r matches Err(e) ==> self.check_spec(h) == Err::<u16, HandleError>(e),
    {
        let idx = match self.check_handle(h) {
            Ok(i) => i,
            Err(e) => {
                return Err(e);
            },
        };
        match &self.entries[idx].state {
            EntryState::Active(v) => Ok(v),
            _ => unreached(),
        }
    }

    /// Remove the value `h` refers to. Its slot returns to the head of the
    /// free list with an odd version, so `h` — and every other handle ever
    /// issued for that slot — is stale from now on.
    pub fn delete(&mut self, h: Handle) -> (r: Result<(), HandleError>)
        requires
            old(self).wf(),
            h.version % 2 == 0,
        ensures
            final(self).wf(),
            r is Ok <==> old(self).check_spec(h) is Ok,
            r matches Err(e) ==> *final(self) == *old(self) && old(self).check_spec(h)
                == Err::<u16, HandleError>(e),
            r is Ok ==> final(self).id == old(self).id,
            r is Ok ==> final(self).entries@.len() == old(self).entries@.len(),
            r is Ok ==> final(self).num_entries == old(self).num_entries - 1,
            r is Ok ==> final(self).entries@[h.index as int].version == h.version + 1,
            r is Ok ==> final(self).slot_free(h.index as int),
            r is Ok ==> final(self).check_spec(h) == Err::<u16, HandleError>(
                HandleError::StaleVersion,
            ),
            r is Ok ==> final(self).first_free == h.index,
            r is Ok ==> final(self).free_seq() == seq![h.index as int] + old(self).free_seq(),
            r is Ok ==> forall|i: int|
                0 <= i < old(self).entries@.len() && i != h.index as int ==> final(self).entries@[i] == old(self).entries@[i],
    {
        let idx = match self.check_handle(h) {
            Ok(i) => i,
            Err(e) => {
                return Err(e);
            },
        };
        proof {
            assert(!self.slot_free(idx as int));
            assert(!self.free_order@.contains(idx as int));
            lemma_free_seq_misses_slot(self.free_order@, self.cap(), idx as int);
            assert(self.entries@[idx as int].version < 0xFFFF);
        }
        let old_first = self.first_free;
        let ver = self.entries[idx].version;
        self.entries.set(
            idx,
            Entry { version: ver + 1, state: EntryState::InFreeList(old_first) },
        );
        self.first_free = h.index;
        self.num_entries = self.num_entries - 1;
        self.free_order = Ghost(seq![idx as int] + self.free_order@);
        proof {
            lemma_free_list_after_prepend(*old(self), *self, idx as int);
        }
        Ok(())
    }

    /// Grow the slot storage until more than `cap_at_least` slots exist.
    /// Doubles the capacity as often as needed, capped at [`MAX_CAPACITY`];
    /// every new slot joins the front of the free list, so the existing list
    /// — and in particular its unique terminator — is never rebuilt.
    #[verifier::rlimit(100)]
    fn ensure_capacity(&mut self, cap_at_least: usize)
        requires
            old(self).wf(),
            old(self).num_entries < cap_at_least,
            cap_at_least < MAX_CAPACITY,
        ensures
            final(self).wf(),
            final(self).id == old(self).id,
            final(self).num_entries == old(self).num_entries,
            final(self).first_free as int == final(self).free_seq()[0],
            final(self).entries@.len() > cap_at_least,
            old(self).entries@.len() > cap_at_least ==> *final(self) == *old(self),
            old(self).entries@.len() <= cap_at_least ==> final(self).entries@.len() == ({
                let g = grown_capacity(old(self).entries@.len() as int, cap_at_least as int);
                if g > MAX_CAPACITY {
                    MAX_CAPACITY as int
                } else {
                    g
                }
            }),
            final(self).free_seq() == Seq::new(
                (final(self).entries@.len() - old(self).entries@.len()) as nat,
                |k: int| final(self).entries@.len() - 1 - k,
            ) + old(self).free_seq(),
            old(self).entries@.len() <= final(self).entries@.len() <= MAX_CAPACITY,
            forall|i: int|
                0 <= i < old(self).entries@.len() ==> final(self).entries@[i] == old(self).entries@[i],
            forall|i: int|
                old(self).entries@.len() <= i < final(self).entries@.len() ==> final(self).entries@[i].version == 1 && final(self).slot_free(i),
    {
        if self.entries.len() > cap_at_least {
            proof {
                assert(Seq::new(0nat, |k: int| self.entries@.len() - 1 - k) + self.free_order@
                    =~= self.free_order@);
            }
            return;
        }
        let mut next_cap = self.entries.len();
        while next_cap <= cap_at_least
            invariant
                MIN_CAPACITY <= next_cap,
                next_cap <= 2 * cap_at_least,
                cap_at_least < MAX_CAPACITY,
                grown_capacity(next_cap as int, cap_at_least as int) == grown_capacity(
                    old(self).entries@.len() as int,
                    cap_at_least as int,
                ),
            decreases 2 * cap_at_least - next_cap,
        {
            proof {
                assert(grown_capacity(next_cap as int, cap_at_least as int)
                    == grown_capacity(2 * next_cap as int, cap_at_least as int));
            }
            next_cap = next_cap * 2;
        }
        proof {
            assert(grown_capacity(next_cap as int, cap_at_least as int) == next_cap as int);
        }
        let target = if next_cap > MAX_CAPACITY {
            MAX_CAPACITY
        } else {
            next_cap
        };
        proof {
            assert(Seq::new(0nat, |k: int| self.entries@.len() - 1 - k) + self.free_order@
                =~= self.free_order@);
        }
        while self.entries.len() < target
            invariant
                self.wf(),
                target <= MAX_CAPACITY,
                cap_at_least < target,
                self.id == old(self).id,
                self.num_entries == old(self).num_entries,
                old(self).entries@.len() <= self.entries@.len() <= target,
                self.free_order@ == Seq::new(
                    (self.entries@.len() - old(self).entries@.len()) as nat,
                    |k: int| self.entries@.len() - 1 - k,
                ) + old(self).free_order@,
                forall|i: int|
                    0 <= i < old(self).entries@.len() ==> self.entries@[i] == old(self).entries@[i],
                forall|i: int|
                    old(self).entries@.len() <= i < self.entries@.len() ==> (
                    #[trigger] self.entries@[i]).version == 1 && self.slot_free(i),
            decreases target - self.entries@.len(),
        {
            let ghost pre = *self;
            let link = self.first_free;
            self.entries.push(Entry { version: 1, state: EntryState::InFreeList(link) });
            let new_idx = self.entries.len() - 1;
            self.first_free = to_u16(new_idx);
            self.free_order = Ghost(seq![new_idx as int] + self.free_order@);
            proof {
                assert(!pre.free_order@.contains(new_idx as int));
                lemma_free_list_after_prepend(pre, *self, new_idx as int);
                let base = old(self).free_order@;
                let shape = Seq::new(
                    (self.entries@.len() - old(self).entries@.len()) as nat,
                    |k: int| self.entries@.len() - 1 - k,
                );
                assert forall|k: int| 0 <= k < self.free_order@.len() implies #[trigger] self.free_order@[k]
                    == (shape + base)[k] by {
                    if k == 0 {
                    } else if k < shape.len() {
                        assert(pre.free_order@[k - 1] == pre.entries@.len() - 1 - (k - 1));
                    } else {
                        assert(pre.free_order@[k - 1] == base[k - 1 - (pre.entries@.len()
                            - old(self).entries@.len())]);
                    }
                }
                assert(self.free_order@ =~= shape + base);
            }
        }
    }

    /// Store `value` in a free slot and return the handle that refers to it,
    /// growing the arena first if another insertion would empty the free
    /// list. The slot's version becomes even; every handle previously issued
    /// for the slot stays stale.
    ///
    /// Two more values must fit under [`MAX_CAPACITY`]: an arena holding
    /// `MAX_CAPACITY - 1` values is full, and growing past the cap is a
    /// configuration error rather than a recoverable one.
    pub fn insert(&mut self, value: T) -> (r: Handle)
        requires
            old(self).wf(),
            old(self).num_entries + 2 <= MAX_CAPACITY,
        ensures
            final(self).wf(),
            final(self).id == old(self).id,
            r.map_id == old(self).id,
            r.version % 2 == 0,
            final(self).num_entries == old(self).num_entries + 1,
            old(self).entries@.len() <= final(self).entries@.len() <= MAX_CAPACITY,
            (r.index as int) < final(self).entries@.len(),
            final(self).entries@[r.index as int].version == r.version,
            final(self).entries@[r.index as int].state == EntryState::<T>::Active(value),
            final(self).check_spec(r) == Ok::<u16, HandleError>(r.index),
            forall|i: int|
                0 <= i < old(self).entries@.len() && i != r.index as int ==> final(self).entries@[i] == old(self).entries@[i],
            forall|i: int|
                old(self).entries@.len() <= i < final(self).entries@.len() && i != r.index as int
                    ==> final(self).entries@[i].version == 1 && final(self).slot_free(i),
            old(self).entries@.len() > old(self).num_entries + 1 ==> final(self).entries@.len() == old(self).entries@.len() && r.index == old(self).first_free,
            old(self).entries@.len() <= old(self).num_entries + 1 ==> final(self).entries@.len() == ({
                let g = grown_capacity(
                    old(self).entries@.len() as int,
                    old(self).num_entries + 1,
                );
                if g > MAX_CAPACITY {
                    MAX_CAPACITY as int
                } else {
                    g
                }
            }) && r.index as int == final(self).entries@.len() - 1,
            (r.index as int) < old(self).entries@.len() ==> r.version == bump_version(
                old(self).entries@[r.index as int].version,
            ),
            r.index as int >= old(self).entries@.len() ==> r.version == 2,
    {
        let need = self.num_entries + 1;
        self.ensure_capacity(need);
        let ghost mid = *self;
        let index = self.first_free;
        let idx = index as usize;
        proof {
            let fs = self.free_order@;
            assert(fs.len() >= 2);
            assert(fs[0] == idx as int);
            assert(self.slot_links(fs[0], fs[1]));
            assert(fs.contains(fs[0]));
            assert(self.slot_free(idx as int));
        }
        let next_free = match &self.entries[idx].state {
            EntryState::InFreeList(n) => *n,
            _ => unreached(),
        };
        let ver = self.entries[idx].version;
        let new_ver = if ver == 0xFFFF {
            2
        } else {
            ver + 1
        };
        self.entries.set(idx, Entry { version: new_ver, state: EntryState::Active(value) });
        self.first_free = next_free;
        self.num_entries = self.num_entries + 1;
        self.free_order = Ghost(self.free_order@.subrange(1, self.free_order@.len() as int));
        proof {
            lemma_free_list_after_pop(mid, *self);
        }
        Handle { map_id: self.id, version: new_ver, index }
    }

    /// Borrow the value `h` refers to mutably, or report exactly why `h` does
    /// not currently refer to one. The slot's version and every other slot
    /// are untouched, whatever the caller writes through the reference;
    /// [`HandleMap::lemma_wf_after_payload_update`] turns that frame into
    /// `wf` again once the borrow ends.
    pub fn get_mut<'a>(&'a mut self, h: Handle) -> (r: Result<&'a mut T, HandleError>)
        requires
            old(self).wf(),
            h.version % 2 == 0,
        ensures
            r is Ok <==> old(self).check_spec(h) is Ok,
            r matches Err(e) ==> *final(self) == *old(self) && old(self).check_spec(h)
                == Err::<u16, HandleError>(e),
            r is Ok ==> *r.unwrap() == old(self).value_at(h.index as int),
            r is Ok ==> final(self).entries@ == old(self).entries@.update(
                h.index as int,
                Entry { version: h.version, state: EntryState::Active(*final(r.unwrap())) },
            ),
            r is Ok ==> final(self).id == old(self).id && final(self).first_free == old(self).first_free && final(self).num_entries == old(self).num_entries && final(self).free_order@ == old(self).free_order@,
    {
        let idx = match self.check_handle(h) {
            Ok(i) => i,
            Err(e) => {
                return Err(e);
            },
        };
        proof {
            assert(!self.slot_free(idx as int));
        }
        let entry = &mut self.entries[idx];
        match &mut entry.state {
            EntryState::Active(v) => Ok(v),
            _ => unreached(),
        }
    }

    /// A change confined to the payload of one occupied slot — same version,
    /// still occupied — preserves the arena's invariant. This is how a write
    /// through [`HandleMap::get_mut`]'s reference is absorbed.
    pub proof fn lemma_wf_after_payload_update(pre: Self, post: Self, j: int)
        requires
            pre.wf(),
            0 <= j < pre.cap(),
            !pre.slot_free(j),
            post.entries@ == pre.entries@.update(
                j,
                Entry { version: pre.entries@[j].version, state: post.entries@[j].state },
            ),
            post.entries@[j].state is Active,
            post.id == pre.id,
            post.first_free == pre.first_free,
            post.num_entries == pre.num_entries,
            post.free_order@ == pre.free_order@,
        ensures
            post.wf(),
    {
        let fs = post.free_order@;
        assert(post.entries@.len() == pre.entries@.len());
        assert(!fs.contains(j));
        assert forall|k: int| 0 <= k < fs.len() - 1 implies post.slot_links(
            #[trigger] fs[k],
            fs[k + 1],
        ) by {
            assert(pre.slot_links(fs[k], fs[k + 1]));
            assert(fs.contains(fs[k]));
            assert(post.entries@[fs[k]] == pre.entries@[fs[k]]);
        }
        assert(fs.contains(fs[fs.len() - 1]));
        assert(post.entries@[fs[fs.len() - 1]] == pre.entries@[fs[fs.len() - 1]]);
        assert(post.slot_end(fs[fs.len() - 1]));
        assert forall|i: int| 0 <= i < post.cap() implies (#[trigger] post.slot_free(i)
            <==> fs.contains(i)) by {
            if i != j {
                assert(post.entries@[i] == pre.entries@[i]);
                assert(pre.slot_free(i) <==> fs.contains(i));
            }
        }
        assert forall|i: int| 0 <= i < post.cap() implies ((#[trigger] post.entries@[i].version)
            % 2 == 0 <==> !post.slot_free(i)) && post.entries@[i].version != 0 by {
            if i != j {
                assert(post.entries@[i] == pre.entries@[i]);
                assert(pre.entries@[i].version % 2 == 0 <==> !pre.slot_free(i));
            } else {
                assert(post.entries@[j].version == pre.entries@[j].version);
            }
        }
    }

    /// Law: exactly one slot is the free list's terminator. Any two slots
    /// marked as the terminator are the same slot: the one the free-list
    /// traversal ends at.
    pub proof fn lemma_unique_terminator(self, i: int, j: int)
        requires
            self.wf(),
            0 <= i < self.cap(),
            0 <= j < self.cap(),
            self.slot_end(i),
            self.slot_end(j),
        ensures
            i == j,
            i == self.free_seq()[self.free_seq().len() - 1],
    {
        let fs = self.free_seq();
        assert(self.slot_free(i));
        assert(self.slot_free(j));
        let ki = choose|k: int| 0 <= k < fs.len() && fs[k] == i;
        let kj = choose|k: int| 0 <= k < fs.len() && fs[k] == j;
        if ki < fs.len() - 1 {
            assert(self.slot_links(fs[ki], fs[ki + 1]));
            assert(false);
        }
        if kj < fs.len() - 1 {
            assert(self.slot_links(fs[kj], fs[kj + 1]));
            assert(false);
        }
    }

    /// Law: whether a handle validates depends only on the arena's id and the
    /// version stored in the handle's slot. Operations that leave a slot
    /// untouched therefore leave every handle to that slot exactly as valid
    /// or as stale as it was.
    pub proof fn lemma_check_depends_only_on_slot(m1: Self, m2: Self, h: Handle)
        requires
            m1.id == m2.id,
            (h.index as int) < m1.cap(),
            (h.index as int) < m2.cap(),
            m1.entries@[h.index as int].version == m2.entries@[h.index as int].version,
        ensures
            m1.check_spec(h) == m2.check_spec(h),
    {
    }
}

/// Law: a slot's version only moves forward until the 16-bit counter wraps
/// (after 32768 occupy/free transitions of one slot). A handle whose version
/// has fallen behind its slot therefore stays stale across every later
/// insertion and deletion in that window, even when the slot is reused.
pub proof fn lemma_stale_stays_stale(h_version: u16, slot_version: u16)
    requires
        slot_version > h_version,
        slot_version < 0xFFFF,
    ensures
        bump_version(slot_version) > h_version,
        bump_version(slot_version) != h_version,
{
}

impl<T> Default for HandleMap<T> {
    /// An empty arena with the default capacity.
    fn default() -> (r: Self)
        ensures
            r.wf(),
            r.num_entries == 0,
            r.entries@.len() == MIN_CAPACITY,
    {
        HandleMap::new()
    }
}

/// How a slot's version moves on every occupy/free transition: it increments,
/// but skips the value zero (a version is never 0, so a wrap lands on 2).
pub open spec fn bump_version(v: u16) -> u16 {
    if v == 0xFFFF {
        2
    } else {
        (v + 1) as u16
    }
}

/// The slot version reached after `k` further occupy/free transitions:
/// `insert` and `delete` each advance the addressed slot's version by one
/// application of [`bump_version`], so a slot that held version `v` when a
/// handle was issued holds `iter_bump(v, k)` after `k` later transitions.
pub open spec fn iter_bump(v: u16, k: nat) -> u16
    decreases k,
{
    if k == 0 {
        v
    } else {
        bump_version(iter_bump(v, (k - 1) as nat))
    }
}

/// The version counter walks the cycle 2, 3, ..., 0xFFFF, 2, ... of length
/// 65534 (versions 0 and 1 are only ever held by slots that were never
/// occupied); after `k` transitions it sits `k` places further along.
proof fn lemma_iter_bump_formula(v: u16, k: nat)
    requires
        2 <= v,
    ensures
        iter_bump(v, k) == ((v - 2 + k) % 65534) + 2,
    decreases k,
{
    if k == 0 {
        assert((v - 2) % 65534 == v - 2);
    } else {
        lemma_iter_bump_formula(v, (k - 1) as nat);
        let n = v - 2 + k - 1;
        let p = n % 65534;
        vstd::arithmetic::div_mod::lemma_fundamental_div_mod(n, 65534);
        let q = n / 65534;
        if p == 65533 {
            assert(n + 1 == (q + 1) * 65534 + 0);
            vstd::arithmetic::div_mod::lemma_fundamental_div_mod_converse_mod(
                n + 1,
                65534,
                q + 1,
                0,
            );
        } else {
            assert(n + 1 == q * 65534 + (p + 1));
            vstd::arithmetic::div_mod::lemma_fundamental_div_mod_converse_mod(
                n + 1,
                65534,
                q,
                p + 1,
            );
        }
    }
}

/// Law: a version once left behind does not come back for a full cycle of
/// the counter. A handle issued at version `v` whose slot has since moved on
/// therefore stays stale — `get`, `get_mut` and `delete` keep failing with
/// `StaleVersion` — across any number of further insertions and deletions
/// of that slot short of 65534 transitions (the original's documented ABA
/// window of 2^15 insert/delete pairs).
pub proof fn lemma_version_cycle_no_return(v: u16, k: nat)
    requires
        2 <= v,
        1 <= k < 65534,
    ensures
        iter_bump(v, k) != v,
{
    lemma_iter_bump_formula(v, k);
    if iter_bump(v, k) == v {
        let n = v - 2 + k;
        vstd::arithmetic::div_mod::lemma_fundamental_div_mod(n, 65534);
        let q = n / 65534;
        assert(k == q * 65534);
        assert(false);
    }
}

/// The growth policy's uncapped target: `cap` doubled repeatedly until it
/// exceeds `need`. The capacity actually reached is this value capped at
/// [`MAX_CAPACITY`].
pub open spec fn grown_capacity(cap: int, need: int) -> int
    decreases (if cap <= need { need + 1 - cap } else { 0 }),
{
    if 1 <= cap <= need {
        grown_capacity(2 * cap, need)
    } else {
        cap
    }
}

/// After slot `j` is pushed onto the front of the free list — either a slot
/// just vacated by `delete`, or a slot newly created by growth — the
/// free-list invariants hold again.
proof fn lemma_free_list_after_prepend<T>(pre: HandleMap<T>, post: HandleMap<T>, j: int)
    requires
        pre.free_list_linked(),
        pre.free_list_covers(),
        pre.versions_mark_occupancy(),
        post.free_order@ == seq![j] + pre.free_order@,
        post.first_free as int == j,
        0 <= j < post.cap(),
        !pre.free_order@.contains(j),
        pre.cap() == post.cap() || (post.cap() == pre.cap() + 1 && j == pre.cap()),
        forall|i: int| 0 <= i < pre.cap() && i != j ==> post.entries@[i] == pre.entries@[i],
        post.slot_links(j, pre.first_free as int),
        post.entries@[j].version % 2 == 1,
    ensures
        post.free_list_linked(),
        post.free_list_covers(),
        post.versions_mark_occupancy(),
{
    let fs0 = pre.free_order@;
    let fs = post.free_order@;
    assert(fs.len() == fs0.len() + 1);
    assert(fs[0] == j);
    assert forall|k: int| 0 <= k < fs.len() - 1 implies post.slot_links(
        #[trigger] fs[k],
        fs[k + 1],
    ) by {
        if k == 0 {
            assert(fs[1] == fs0[0]);
            assert(fs0[0] == pre.first_free as int);
        } else {
            assert(fs[k] == fs0[k - 1]);
            assert(fs[k + 1] == fs0[k]);
            assert(pre.slot_links(fs0[k - 1], fs0[k]));
            assert(fs0.contains(fs0[k - 1]));
            assert(post.entries@[fs0[k - 1]] == pre.entries@[fs0[k - 1]]);
        }
    }
    assert(fs[fs.len() - 1] == fs0[fs0.len() - 1]);
    assert(fs0.contains(fs0[fs0.len() - 1]));
    assert(post.slot_end(fs[fs.len() - 1]));
    assert forall|k: int| 0 <= k < fs.len() implies 0 <= #[trigger] fs[k] < post.cap() by {
        if k > 0 {
            assert(fs[k] == fs0[k - 1]);
        }
    }
    assert forall|p: int, q: int|
        0 <= p < fs.len() && 0 <= q < fs.len() && p != q implies fs[p] != fs[q] by {
        if p == 0 {
            assert(fs[q] == fs0[q - 1]);
            assert(fs0.contains(fs0[q - 1]));
        } else if q == 0 {
            assert(fs[p] == fs0[p - 1]);
            assert(fs0.contains(fs0[p - 1]));
        } else {
            assert(fs[p] == fs0[p - 1]);
            assert(fs[q] == fs0[q - 1]);
        }
    }
    assert(fs.no_duplicates());
    assert forall|i: int| 0 <= i < post.cap() implies (#[trigger] post.slot_free(i)
        <==> fs.contains(i)) by {
        if i == j {
            assert(post.slot_free(j));
            assert(fs[0] == j);
        } else {
            assert(i < pre.cap());
            assert(post.entries@[i] == pre.entries@[i]);
            assert(pre.slot_free(i) <==> fs0.contains(i));
            if fs.contains(i) {
                let k = choose|k: int| 0 <= k < fs.len() && fs[k] == i;
                assert(k != 0);
                assert(fs0[k - 1] == i);
                assert(fs0.contains(i));
            }
            if fs0.contains(i) {
                let k = choose|k: int| 0 <= k < fs0.len() && fs0[k] == i;
                assert(fs[k + 1] == i);
                assert(fs.contains(i));
            }
        }
    }
    assert forall|i: int| 0 <= i < post.cap() implies ((#[trigger] post.entries@[i].version) % 2
        == 0 <==> !post.slot_free(i)) && post.entries@[i].version != 0 by {
        if i == j {
            assert(post.slot_free(j));
        } else {
            assert(i < pre.cap());
            assert(post.entries@[i] == pre.entries@[i]);
            assert(pre.entries@[i].version % 2 == 0 <==> !pre.slot_free(i));
        }
    }
}

/// After the head of the free list is handed out by `insert`, the free-list
/// invariants hold again.
proof fn lemma_free_list_after_pop<T>(pre: HandleMap<T>, post: HandleMap<T>)
    requires
        pre.free_list_linked(),
        pre.free_list_covers(),
        pre.versions_mark_occupancy(),
        pre.free_order@.len() >= 2,
        post.free_order@ == pre.free_order@.subrange(1, pre.free_order@.len() as int),
        post.cap() == pre.cap(),
        post.first_free as int == pre.free_order@[1],
        forall|i: int|
            0 <= i < pre.cap() && i != pre.free_order@[0] ==> post.entries@[i]
                == pre.entries@[i],
        !post.slot_free(pre.free_order@[0]),
        post.entries@[pre.free_order@[0]].version % 2 == 0,
        post.entries@[pre.free_order@[0]].version != 0,
    ensures
        post.free_list_linked(),
        post.free_list_covers(),
        post.versions_mark_occupancy(),
{
    let fs0 = pre.free_order@;
    let fs = post.free_order@;
    let j = fs0[0];
    assert(fs.len() == fs0.len() - 1);
    assert(fs[0] == fs0[1]);
    assert forall|k: int| 0 <= k < fs.len() - 1 implies post.slot_links(
        #[trigger] fs[k],
        fs[k + 1],
    ) by {
        assert(fs[k] == fs0[k + 1]);
        assert(fs[k + 1] == fs0[k + 2]);
        assert(pre.slot_links(fs0[k + 1], fs0[k + 2]));
        assert(post.entries@[fs0[k + 1]] == pre.entries@[fs0[k + 1]]);
    }
    assert(fs[fs.len() - 1] == fs0[fs0.len() - 1]);
    assert(post.slot_end(fs[fs.len() - 1]));
    assert forall|k: int| 0 <= k < fs.len() implies 0 <= #[trigger] fs[k] < post.cap() by {
        assert(fs[k] == fs0[k + 1]);
    }
    assert forall|p: int, q: int|
        0 <= p < fs.len() && 0 <= q < fs.len() && p != q implies fs[p] != fs[q] by {
        assert(fs[p] == fs0[p + 1]);
        assert(fs[q] == fs0[q + 1]);
    }
    assert(fs.no_duplicates());
    assert forall|i: int| 0 <= i < post.cap() implies (#[trigger] post.slot_free(i)
        <==> fs.contains(i)) by {
        if i == j {
            if fs.contains(j) {
                let k = choose|k: int| 0 <= k < fs.len() && fs[k] == j;
                assert(fs0[k + 1] == j);
                assert(false);
            }
        } else {
            assert(post.entries@[i] == pre.entries@[i]);
            assert(pre.slot_free(i) <==> fs0.contains(i));
            if fs0.contains(i) {
                let k = choose|k: int| 0 <= k < fs0.len() && fs0[k] == i;
                assert(k != 0);
                assert(fs[k - 1] == i);
            }
            if fs.contains(i) {
                let k = choose|k: int| 0 <= k < fs.len() && fs[k] == i;
                assert(fs0[k + 1] == i);
            }
        }
    }
    assert forall|i: int| 0 <= i < post.cap() implies ((#[trigger] post.entries@[i].version) % 2
        == 0 <==> !post.slot_free(i)) && post.entries@[i].version != 0 by {
        if i != j {
            assert(post.entries@[i] == pre.entries@[i]);
            assert(pre.entries@[i].version % 2 == 0 <==> !pre.slot_free(i));
        }
    }
}

/// Narrow a slot index to `u16`; indices never exceed [`MAX_CAPACITY`].
fn to_u16(v: usize) -> (r: u16)
    requires
        v <= 0xFFFF,
    ensures
        r as usize == v,
{
    v as u16
}

/// Relies on `rand::random`: a fresh sample of a uniformly distributed value.
/// Nothing is promised of the result; the arena uses it only for instance
/// ids, whose collisions are improbable but harmless to safety.
pub assume_specification<T>[ rand::random::<T> ]() -> (r: T)
    where
        rand::distributions::Standard: rand::distributions::Distribution<T>,
;

/// The instance id for a freshly constructed arena: a uniformly random draw,
/// so two independently created arenas — even in separately compiled
/// components — carry different ids with overwhelming probability, and a
/// handle from one is rejected by the other as [`HandleError::WrongMap`].
fn next_handle_map_id() -> (r: u16) {
    rand::random::<u16>()
}

} // verus!
