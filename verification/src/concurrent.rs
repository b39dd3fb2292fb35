use vstd::prelude::*;
use vstd::rwlock::RwLock;
use vstd::rwlock::RwLockPredicate;

use crate::arena::HandleMap;
use crate::arena::MAX_CAPACITY;
use crate::error::HandleError;
use crate::handle::Handle;

verus! {

/// Predicate for each stored value's own exclusive lock: any value of the
/// payload type may be stored.
pub struct ValuePred;

impl<T> RwLockPredicate<T> for ValuePred {
    open spec fn inv(self, v: T) -> bool {
        true
    }
}

/// Predicate for the collection-level lock: whenever the lock is free, the
/// arena satisfies its invariant [`HandleMap::wf`].
pub struct ArenaPred;

impl<T> RwLockPredicate<HandleMap<RwLock<T, ValuePred>>> for ArenaPred {
    open spec fn inv(self, m: HandleMap<RwLock<T, ValuePred>>) -> bool {
        m.wf()
    }
}

/// A thread-safe wrapper around one [`HandleMap`] whose stored values are
/// each individually lockable.
///
/// `insert` and `delete` take the collection lock exclusively, since they
/// rearrange the slots and the free list. `get` and `get_mut` take it in
/// shared mode — so lookups on distinct handles run in parallel — and then
/// take the addressed value's own lock exclusively, so two accesses to the
/// same handle never overlap, whatever their read/write intent. Both locks
/// are verified vstd reader/writer locks; their mutual exclusion is
/// established by vstd's proofs, not by this crate's trust.
///
/// Fault policy: these locks have no poisoning. If a caller-supplied
/// callback panics, or a thread dies while it holds a lock, the lock stays
/// held; later operations that need it block forever instead of observing a
/// half-finished state or propagating the fault. The arena's invariant is
/// never exposed broken: it is re-established before each release, and a
/// fault before the release simply keeps the lock.
pub struct ConcurrentHandleMap<T> {
    /// The arena behind the collection lock; each slot's value sits behind
    /// its own exclusive lock.
    pub map: RwLock<HandleMap<RwLock<T, ValuePred>>, ArenaPred>,
}

impl<T> ConcurrentHandleMap<T> {
    /// Construct an empty concurrent arena with the default capacity.
    pub fn new() -> (r: Self)
    {
        ConcurrentHandleMap { map: RwLock::new(HandleMap::new(), Ghost(ArenaPred)) }
    }

    /// Store `value` and return the handle that refers to it, or `None` when
    /// the arena is already full (`MAX_CAPACITY - 1` values), since capacity
    /// can never grow past [`MAX_CAPACITY`].
    pub fn insert(&self, value: T) -> (r: Option<Handle>)
        ensures
            r matches Some(h) ==> h.version % 2 == 0 && h.version != 0 && (h.index as int)
                < MAX_CAPACITY,
    {
        let (mut m, wh) = self.map.acquire_write();
        proof {
            assert(self.map.pred() == ArenaPred);
        }
        if m.len() + 2 <= MAX_CAPACITY {
            let vl = RwLock::new(value, Ghost(ValuePred));
            let h = m.insert(vl);
            wh.release_write(m);
            Some(h)
        } else {
            wh.release_write(m);
            None
        }
    }

    /// Remove the value `h` refers to. The value's own lock is acquired —
    /// under the exclusively held collection lock — and the value is taken
    /// out and destroyed before its slot returns to the free list.
    pub fn delete(&self, h: Handle) -> (r: Result<(), HandleError>)
        requires
            h.version % 2 == 0,
        ensures
            r matches Err(e) ==> e != HandleError::InvalidHandle,
    {
        let (mut m, wh) = self.map.acquire_write();
        proof {
            assert(self.map.pred() == ArenaPred);
        }
        let ghost pre = m;
        match m.get_mut(h) {
            Ok(vl) => {
                // take the value out of its lock so it is destroyed here;
                // the emptied lock is dropped with the slot's entry below
                let (_value, _vwh) = vl.acquire_write();
            },
            Err(e) => {
                wh.release_write(m);
                return Err(e);
            },
        }
        proof {
            assert(!pre.slot_free(h.index as int));
            HandleMap::lemma_wf_after_payload_update(pre, m, h.index as int);
        }
        let d = m.delete(h);
        wh.release_write(m);
        d
    }

    /// Call `callback` with a shared reference to the value `h` refers to,
    /// holding the collection lock in shared mode and the value's own lock
    /// exclusively for the duration of the call.
    pub fn get<F: FnOnce(&T) -> R, R>(&self, h: Handle, callback: F) -> (r: Result<
        R,
        HandleError,
    >)
        requires
            h.version % 2 == 0,
            forall|t: &T| #[trigger] callback.requires((t,)),
        ensures
            r matches Ok(res) ==> exists|t: &T| #[trigger] callback.ensures((t,), res),
            r matches Err(e) ==> e != HandleError::InvalidHandle,
    {
        let rh = self.map.acquire_read();
        proof {
            assert(self.map.pred() == ArenaPred);
        }
        let m = rh.borrow();
        match m.get(h) {
            Ok(vl) => {
                let (t, vwh) = vl.acquire_write();
                let out = callback(&t);
                let res: Result<R, HandleError> = Ok(out);
                proof {
                    assert(res->Ok_0 == out);
                    assert(exists|a: &T| #[trigger] callback.ensures((a,), res->Ok_0));
                }
                vwh.release_write(t);
                rh.release_read();
                res
            },
            Err(e) => {
                rh.release_read();
                Err(e)
            },
        }
    }

    /// Call `callback` with exclusive access to the value `h` refers to,
    /// under the same two-level locking as [`ConcurrentHandleMap::get`]. The
    /// callback consumes the stored value and returns its replacement
    /// together with its own result.
    pub fn get_mut<F: FnOnce(T) -> (T, R), R>(&self, h: Handle, callback: F) -> (r: Result<
        R,
        HandleError,
    >)
        requires
            h.version % 2 == 0,
            forall|t: T| #[trigger] callback.requires((t,)),
        ensures
            r matches Ok(res) ==> exists|t: T, p: (T, R)|
                #[trigger] callback.ensures((t,), p) && p.1 == res,
            r matches Err(e) ==> e != HandleError::InvalidHandle,
    {
        let rh = self.map.acquire_read();
        proof {
            assert(self.map.pred() == ArenaPred);
        }
        let m = rh.borrow();
        match m.get(h) {
            Ok(vl) => {
                let (t, vwh) = vl.acquire_write();
                let (t2, out) = callback(t);
                let res: Result<R, HandleError> = Ok(out);
                proof {
                    assert(exists|a: T, p: (T, R)|
                        #[trigger] callback.ensures((a,), p) && p.1 == res->Ok_0);
                }
                vwh.release_write(t2);
                rh.release_read();
                res
            },
            Err(e) => {
                rh.release_read();
                Err(e)
            },
        }
    }

    /// [`ConcurrentHandleMap::get`], keyed by the raw 64-bit encoding of a
    /// handle: the value is decoded first, and a pattern that cannot encode
    /// any handle is reported as [`HandleError::InvalidHandle`].
    pub fn get_u64<F: FnOnce(&T) -> R, R>(&self, u: u64, callback: F) -> (r: Result<
        R,
        HandleError,
    >)
        requires
            forall|t: &T| #[trigger] callback.requires((t,)),
        ensures
            r matches Ok(res) ==> exists|t: &T| #[trigger] callback.ensures((t,), res),
            !crate::handle::valid_bits(u) ==> r == Err::<R, HandleError>(
                HandleError::InvalidHandle,
            ),
            crate::handle::valid_bits(u) ==> r != Err::<R, HandleError>(
                HandleError::InvalidHandle,
            ),
    {
        match Handle::from_u64(u) {
            Ok(h) => self.get(h, callback),
            Err(e) => Err(e),
        }
    }

    /// [`ConcurrentHandleMap::get_mut`], keyed by the raw 64-bit encoding of
    /// a handle.
    pub fn get_mut_u64<F: FnOnce(T) -> (T, R), R>(&self, u: u64, callback: F) -> (r: Result<
        R,
        HandleError,
    >)
        requires
            forall|t: T| #[trigger] callback.requires((t,)),
        ensures
            r matches Ok(res) ==> exists|t: T, p: (T, R)|
                #[trigger] callback.ensures((t,), p) && p.1 == res,
            !crate::handle::valid_bits(u) ==> r == Err::<R, HandleError>(
                HandleError::InvalidHandle,
            ),
            crate::handle::valid_bits(u) ==> r != Err::<R, HandleError>(
                HandleError::InvalidHandle,
            ),
    {
        match Handle::from_u64(u) {
            Ok(h) => self.get_mut(h, callback),
            Err(e) => Err(e),
        }
    }
}

} // verus!
