use ddos_kernel::sync::{RwSpinLock, SpinLock};

#[derive(Debug, PartialEq, Eq)]
struct NonCopy(i32);

#[test]
fn spin_lock_excludes() {
    let mut m = SpinLock::new(());
    let l = m.try_lock();
    assert!(l.is_some());
    let l2 = m.try_lock();
    assert!(l2.is_none());
    m.unlock(l.unwrap());
    let l = m.lock();
    assert!(m.try_lock().is_none());
    m.unlock(l);
    assert!(m.try_lock().is_some());
}

#[test]
fn spin_lock_guards_value() {
    let mut m = SpinLock::new(5u32);
    let g = m.lock();
    assert_eq!(*m.get(&g), 5);
    assert_eq!(m.replace(&g, 7), 5);
    assert_eq!(*m.get(&g), 7);
    m.unlock(g);
}

#[test]
fn rwlock_smoke() {
    let mut l = RwSpinLock::new(());
    let r = l.read();
    l.release_read(r);
    let w = l.write();
    l.release_write(w);
    let r1 = l.read();
    let r2 = l.read();
    l.release_read(r1);
    l.release_read(r2);
    let w = l.write();
    l.release_write(w);
}

#[test]
fn rwlock_try_write() {
    let mut lock = RwSpinLock::new(0isize);
    let read_guard = lock.read();
    assert!(lock.try_write().is_none());
    lock.release_read(read_guard);
    assert!(lock.try_write().is_some());
}

#[test]
fn rw_try_read() {
    let mut m = RwSpinLock::new(0);
    let _w = m.write();
    assert!(m.try_read().is_none());
}

#[test]
fn rwlock_into_inner() {
    let m = RwSpinLock::new(NonCopy(10));
    assert_eq!(m.into_inner(), NonCopy(10));
    let m = RwSpinLock::new(NonCopy(11));
    assert_eq!(m.get_data(), NonCopy(11));
}

#[test]
fn rwlock_force_read_decrement() {
    let mut m = RwSpinLock::new(());
    let _r1 = m.read();
    let _r2 = m.read();
    let _r3 = m.read();
    assert!(m.try_write().is_none());
    m.force_read_decrement();
    m.force_read_decrement();
    assert!(m.try_write().is_none());
    m.force_read_decrement();
    assert!(m.try_write().is_some());
}

#[test]
fn rwlock_force_write_unlock() {
    let mut m = RwSpinLock::new(());
    let _w = m.write();
    assert!(m.try_read().is_none());
    m.force_write_unlock();
    assert!(m.try_read().is_some());
}

#[test]
fn rwlock_upgrade_downgrade() {
    let mut m = RwSpinLock::new(());
    {
        let r = m.read();
        let upg = m.try_upgradeable_read().unwrap();
        assert!(m.try_read().is_none());
        assert!(m.try_write().is_none());
        let back = upg.try_upgrade(&mut m);
        assert!(back.is_err());
        m.release_upgradeable(back.err().unwrap());
        m.release_read(r);
    }
    {
        let w = m.write();
        assert!(m.try_upgradeable_read().is_none());
        let r = w.downgrade(&mut m);
        let u = m.try_upgradeable_read();
        assert!(u.is_some());
        m.release_upgradeable(u.unwrap());
        let r2 = m.try_read();
        assert!(r2.is_some());
        m.release_read(r2.unwrap());
        assert!(m.try_write().is_none());
        m.release_read(r);
    }
    {
        let u = m.upgradeable_read();
        assert!(m.try_upgradeable_read().is_none());
        m.release_upgradeable(u);
    }
    let u = m.try_upgradeable_read().unwrap();
    let w = u.try_upgrade(&mut m);
    assert!(w.is_ok());
    let r = w.ok().unwrap().downgrade(&mut m);
    m.release_read(r);
    let u = m.upgradeable_read();
    let w = u.upgrade(&mut m);
    let mut value = ();
    value = m.replace(&w, value);
    let _ = value;
    m.release_write(w);
    assert!(m.try_write().is_some());
}
