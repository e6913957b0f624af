//! The kernel's busy-wait locks, as the protocols over their lock words: a
//! spin lock, and a reader-writer lock with upgradeable readers. A guard is
//! the token of a hold; giving it back releases the hold. Waiting on a lock
//! held by the same execution context would spin forever, so the operations
//! that wait require that the lock is free for them.
use vstd::prelude::*;

verus! {

/// A busy-wait mutual-exclusion lock around a `T`.
pub struct SpinLock<T> {
    locked: bool,
    data: T,
}

/// The token of a hold on a `SpinLock`.
pub struct SpinLockGuard {
    _held: (),
}

impl<T> SpinLock<T> {
    pub closed spec fn is_locked(&self) -> bool {
        self.locked
    }

    /// The protected value.
    pub closed spec fn value(&self) -> T {
        self.data
    }

    /// An unlocked lock around `data`.
    pub fn new(data: T) -> (r: SpinLock<T>)
        ensures
            !r.is_locked(),
            r.value() == data,
    {
        SpinLock { locked: false, data }
    }

    /// Takes the lock if it is free.
    pub fn try_lock(&mut self) -> (r: Option<SpinLockGuard>)
        ensures
            r is Some <==> !old(self).is_locked(),
            final(self).is_locked(),
            final(self).value() == old(self).value(),
    {
        if self.locked {
            None
        } else {
            self.locked = true;
            Some(SpinLockGuard { _held: () })
        }
    }

    /// Takes the lock; it must be free, since nothing else runs to free it.
    pub fn lock(&mut self) -> (r: SpinLockGuard)
        requires
            !old(self).is_locked(),
        ensures
            final(self).is_locked(),
            final(self).value() == old(self).value(),
    {
        self.locked = true;
        SpinLockGuard { _held: () }
    }

    /// Gives the hold back.
    pub fn unlock(&mut self, guard: SpinLockGuard)
        requires
            old(self).is_locked(),
        ensures
            !final(self).is_locked(),
            final(self).value() == old(self).value(),
    {
        let SpinLockGuard { _held } = guard;
        self.locked = false;
    }

    /// The protected value, read under a hold.
    pub fn get(&self, guard: &SpinLockGuard) -> (r: &T)
        requires
            self.is_locked(),
        ensures
            *r == self.value(),
    {
        &self.data
    }

    /// Replaces the protected value under a hold, and returns the old one.
    pub fn replace(&mut self, guard: &SpinLockGuard, value: T) -> (r: T)
        requires
            old(self).is_locked(),
        ensures
            r == old(self).value(),
            final(self).value() == value,
            final(self).is_locked(),
    {
        let mut v = value;
        core::mem::swap(&mut self.data, &mut v);
        v
    }
}

/// A busy-wait reader-writer lock around a `T`. Its lock word holds a writer
/// bit, an upgraded bit and a count of readers.
pub struct RwSpinLock<T> {
    writer: bool,
    upgraded: bool,
    readers: usize,
    data: T,
}

/// The token of a shared hold.
pub struct RwSpinLockReadGuard {
    _held: (),
}

/// The token of the exclusive hold.
pub struct RwSpinLockWriteGuard {
    _held: (),
}

/// The token of an upgradeable hold: shared, and the only one that may
/// become exclusive.
pub struct RwSpinLockUpgradeableGuard {
    _held: (),
}

impl<T> RwSpinLock<T> {
    pub closed spec fn writer(&self) -> bool {
        self.writer
    }

    pub closed spec fn upgraded(&self) -> bool {
        self.upgraded
    }

    pub closed spec fn readers(&self) -> nat {
        self.readers as nat
    }

    /// The protected value.
    pub closed spec fn value(&self) -> T {
        self.data
    }

    /// The lock word is free: no writer, no upgradeable reader, no reader.
    pub open spec fn is_free(&self) -> bool {
        !self.writer() && !self.upgraded() && self.readers() == 0
    }

    /// `after` holds the same value as `before`.
    pub open spec fn same_value(before: &Self, after: &Self) -> bool {
        after.value() == before.value()
    }

    /// A free lock around `user_data`.
    pub fn new(user_data: T) -> (r: RwSpinLock<T>)
        ensures
            r.is_free(),
            r.value() == user_data,
    {
        RwSpinLock { writer: false, upgraded: false, readers: 0, data: user_data }
    }

    /// The protected value; owning the lock, nobody else holds it.
    pub fn into_inner(self) -> (r: T)
        ensures
            r == self.value(),
    {
        self.data
    }

    /// The protected value; owning the lock, nobody else holds it.
    pub fn get_data(self) -> (r: T)
        ensures
            r == self.value(),
    {
        self.data
    }

    /// A shared hold, unless a writer or an upgradeable reader is in: new
    /// readers wait behind an upgradeable reader so that a writer is not starved.
    pub fn try_read(&mut self) -> (r: Option<RwSpinLockReadGuard>)
        requires
            old(self).readers() < usize::MAX,
        ensures
            r is Some <==> !old(self).writer() && !old(self).upgraded(),
            final(self).writer() == old(self).writer(),
            final(self).upgraded() == old(self).upgraded(),
            final(self).readers() == old(self).readers() + (if r is Some { 1int } else { 0int }),
            final(self).value() == old(self).value(),
    {
        if self.writer || self.upgraded {
            None
        } else {
            self.readers = self.readers + 1;
            Some(RwSpinLockReadGuard { _held: () })
        }
    }

    /// A shared hold; no writer or upgradeable reader may be in.
    pub fn read(&mut self) -> (r: RwSpinLockReadGuard)
        requires
            !old(self).writer(),
            !old(self).upgraded(),
            old(self).readers() < usize::MAX,
        ensures
            final(self).writer() == old(self).writer(),
            final(self).upgraded() == old(self).upgraded(),
            final(self).readers() == old(self).readers() + 1,
            final(self).value() == old(self).value(),
    {
        self.readers = self.readers + 1;
        RwSpinLockReadGuard { _held: () }
    }

    /// Gives a shared hold back.
    pub fn release_read(&mut self, guard: RwSpinLockReadGuard)
        requires
            old(self).readers() > 0,
        ensures
            final(self).writer() == old(self).writer(),
            final(self).upgraded() == old(self).upgraded(),
            final(self).readers() == old(self).readers() - 1,
            final(self).value() == old(self).value(),
    {
        let RwSpinLockReadGuard { _held } = guard;
        self.readers = self.readers - 1;
    }

    /// Drops one reader without a guard, for a hold whose guard was lost.
    pub fn force_read_decrement(&mut self)
        requires
            old(self).readers() > 0,
        ensures
            final(self).writer() == old(self).writer(),
            final(self).upgraded() == old(self).upgraded(),
            final(self).readers() == old(self).readers() - 1,
            final(self).value() == old(self).value(),
    {
        self.readers = self.readers - 1;
    }

    /// The exclusive hold, if the lock word is free.
    pub fn try_write(&mut self) -> (r: Option<RwSpinLockWriteGuard>)
        ensures
            r is Some <==> old(self).is_free(),
            r is Some ==> final(self).writer() && !final(self).upgraded() && final(self).readers() == 0,
            r is None ==> final(self).writer() == old(self).writer() && final(self).upgraded()
                == old(self).upgraded() && final(self).readers() == old(self).readers(),
            final(self).value() == old(self).value(),
    {
        if !self.writer && !self.upgraded && self.readers == 0 {
            self.writer = true;
            Some(RwSpinLockWriteGuard { _held: () })
        } else {
            None
        }
    }

    /// The exclusive hold; the lock word must be free.
    pub fn write(&mut self) -> (r: RwSpinLockWriteGuard)
        requires
            old(self).is_free(),
        ensures
            final(self).writer(),
            !final(self).upgraded(),
            final(self).readers() == 0,
            final(self).value() == old(self).value(),
    {
        self.writer = true;
        RwSpinLockWriteGuard { _held: () }
    }

    /// Gives the exclusive hold back, clearing the upgraded bit as well: an
    /// upgradeable reader that tried to come in while the writer held the
    /// lock left it set.
    pub fn release_write(&mut self, guard: RwSpinLockWriteGuard)
        requires
            old(self).writer(),
        ensures
            !final(self).writer(),
            !final(self).upgraded(),
            final(self).readers() == old(self).readers(),
            final(self).value() == old(self).value(),
    {
        let RwSpinLockWriteGuard { _held } = guard;
        self.writer = false;
        self.upgraded = false;
    }

    /// Clears the writer and upgraded bits without a guard, for a hold whose
    /// guard was lost.
    pub fn force_write_unlock(&mut self)
        ensures
            !final(self).writer(),
            !final(self).upgraded(),
            final(self).readers() == old(self).readers(),
            final(self).value() == old(self).value(),
    {
        self.writer = false;
        self.upgraded = false;
    }

    /// An upgradeable hold, unless a writer or another upgradeable reader is
    /// in. The upgraded bit is set either way: when another holder is in, it
    /// clears the bit on its way out.
    pub fn try_upgradeable_read(&mut self) -> (r: Option<RwSpinLockUpgradeableGuard>)
        ensures
            r is Some <==> !old(self).writer() && !old(self).upgraded(),
            final(self).upgraded(),
            final(self).writer() == old(self).writer(),
            final(self).readers() == old(self).readers(),
            final(self).value() == old(self).value(),
    {
        let was = self.writer || self.upgraded;
        self.upgraded = true;
        if was {
            None
        } else {
            Some(RwSpinLockUpgradeableGuard { _held: () })
        }
    }

    /// An upgradeable hold; no writer or upgradeable reader may be in.
    pub fn upgradeable_read(&mut self) -> (r: RwSpinLockUpgradeableGuard)
        requires
            !old(self).writer(),
            !old(self).upgraded(),
        ensures
            final(self).upgraded(),
            !final(self).writer(),
            final(self).readers() == old(self).readers(),
            final(self).value() == old(self).value(),
    {
        self.upgraded = true;
        RwSpinLockUpgradeableGuard { _held: () }
    }

    /// Gives an upgradeable hold back.
    pub fn release_upgradeable(&mut self, guard: RwSpinLockUpgradeableGuard)
        requires
            old(self).upgraded(),
        ensures
            !final(self).upgraded(),
            final(self).writer() == old(self).writer(),
            final(self).readers() == old(self).readers(),
            final(self).value() == old(self).value(),
    {
        let RwSpinLockUpgradeableGuard { _held } = guard;
        self.upgraded = false;
    }

    /// The value, read under any hold.
    pub fn get(&self) -> (r: &T)
        requires
            self.writer() || self.upgraded() || self.readers() > 0,
        ensures
            *r == self.value(),
    {
        &self.data
    }

    /// Replaces the value under the exclusive hold, and returns the old one.
    pub fn replace(&mut self, guard: &RwSpinLockWriteGuard, value: T) -> (r: T)
        requires
            old(self).writer(),
        ensures
            r == old(self).value(),
            final(self).value() == value,
            final(self).writer(),
            final(self).upgraded() == old(self).upgraded(),
            final(self).readers() == old(self).readers(),
    {
        let mut v = value;
        core::mem::swap(&mut self.data, &mut v);
        v
    }
}

impl RwSpinLockUpgradeableGuard {
    /// Turns an upgradeable hold into the exclusive one, if no reader is in;
    /// otherwise hands the upgradeable hold back.
    pub fn try_upgrade<T>(self, lock: &mut RwSpinLock<T>) -> (r: Result<
        RwSpinLockWriteGuard,
        RwSpinLockUpgradeableGuard,
    >)
        requires
            old(lock).upgraded(),
            !old(lock).writer(),
        ensures
            r is Ok <==> old(lock).readers() == 0,
            r is Ok ==> final(lock).writer() && !final(lock).upgraded(),
            r is Err ==> !final(lock).writer() && final(lock).upgraded(),
            final(lock).readers() == old(lock).readers(),
            final(lock).value() == old(lock).value(),
    {
        if lock.readers == 0 {
            let RwSpinLockUpgradeableGuard { _held } = self;
            lock.upgraded = false;
            lock.writer = true;
            Ok(RwSpinLockWriteGuard { _held: () })
        } else {
            Err(self)
        }
    }

    /// Turns an upgradeable hold into the exclusive one; no reader may be in.
    pub fn upgrade<T>(self, lock: &mut RwSpinLock<T>) -> (r: RwSpinLockWriteGuard)
        requires
            old(lock).upgraded(),
            !old(lock).writer(),
            old(lock).readers() == 0,
        ensures
            final(lock).writer(),
            !final(lock).upgraded(),
            final(lock).readers() == 0,
            final(lock).value() == old(lock).value(),
    {
        match self.try_upgrade(lock) {
            Ok(w) => w,
            Err(u) => {
                proof {
                    assert(false);
                }
                let RwSpinLockUpgradeableGuard { _held } = u;
                RwSpinLockWriteGuard { _held: () }
            },
        }
    }

    /// Turns an upgradeable hold into a shared one.
    pub fn downgrade<T>(self, lock: &mut RwSpinLock<T>) -> (r: RwSpinLockReadGuard)
        requires
            old(lock).upgraded(),
            old(lock).readers() < usize::MAX,
        ensures
            !final(lock).upgraded(),
            final(lock).writer() == old(lock).writer(),
            final(lock).readers() == old(lock).readers() + 1,
            final(lock).value() == old(lock).value(),
    {
        lock.readers = lock.readers + 1;
        lock.release_upgradeable(self);
        RwSpinLockReadGuard { _held: () }
    }
}

impl RwSpinLockWriteGuard {
    /// Turns the exclusive hold into a shared one.
    pub fn downgrade<T>(self, lock: &mut RwSpinLock<T>) -> (r: RwSpinLockReadGuard)
        requires
            old(lock).writer(),
            old(lock).readers() < usize::MAX,
        ensures
            !final(lock).writer(),
            !final(lock).upgraded(),
            final(lock).readers() == old(lock).readers() + 1,
            final(lock).value() == old(lock).value(),
    {
        lock.readers = lock.readers + 1;
        lock.release_write(self);
        RwSpinLockReadGuard { _held: () }
    }
}

} // verus!
