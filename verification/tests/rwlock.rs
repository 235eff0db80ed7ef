use spin_sync::rwlock::{RWLock, TryReadError, TryWriteError};

#[test]
fn test_try() {
    let lock: RWLock<isize> = RWLock::new(0);

    for _ in 0..10 {
        let read = lock.read(1).ok().expect("couldn't acquire lock");

        assert!(lock.try_write().is_err());

        drop(read);

        let write = lock.try_write().ok().expect("couldn't acquire lock");

        assert!(lock.try_read().is_err());

        drop(write);

        // reads don't block each other
        let _read = lock.try_read().ok().expect("couldn't acquire lock");
        let _read = lock.read(1).ok().expect("couldn't acquire lock");
        let _ = lock.try_read().ok().expect("couldn't acquire lock");
    }
}

#[test]
fn test_try_read_fails_with_reader_count() {
    let lock: RWLock<isize> = RWLock::new(0);

    const N: u64 = 100;
    let _readers: Vec<_> = (0..N).map(|_| lock.read(1).ok().unwrap()).collect();

    match lock.try_write() {
        Err((TryWriteError::HasReaders(n), _)) => {
            assert_eq!(n, N);
        }
        Err((e, _)) => {
            panic!("wrong error: {e:?}");
        }
        Ok(_) => {
            panic!("got write lock while readers there are readers");
        }
    };
}

#[test]
fn guards_show_the_value() {
    let lock = RWLock::new(String::from("hello"));

    let read = lock.read(1).ok().unwrap();
    assert_eq!(*read, "hello");
    read.release();

    let write = lock.write(2).ok().unwrap();
    assert_eq!(*write, "hello");
    write.release();
}

#[test]
fn a_writer_keeps_readers_out() {
    let lock = RWLock::new(7u8);
    let write = lock.write(2).ok().unwrap();

    assert_eq!(lock.try_read().err().map(|refusal| refusal.0), Some(TryReadError::HasWriter));
    assert!(lock.read(5).is_err());

    write.release();
    assert_eq!(lock.read(1).ok().map(|guard| *guard), Some(7));
}

#[test]
fn a_writer_keeps_writers_out() {
    let lock = RWLock::new(7u8);
    let write = lock.try_write().ok().unwrap();

    assert_eq!(lock.try_write().err().map(|refusal| refusal.0), Some(TryWriteError::HasWriter));
    assert!(lock.write(100).is_err());

    write.release();
}

#[test]
fn a_refused_writer_leaves_no_trace() {
    let lock = RWLock::new(7u8);
    let read = lock.read(1).ok().unwrap();

    assert_eq!(lock.try_write().err().map(|refusal| refusal.0), Some(TryWriteError::HasReaders(1)));
    let other = lock.try_read().ok().unwrap();
    assert_eq!(lock.try_write().err().map(|refusal| refusal.0), Some(TryWriteError::HasReaders(2)));

    other.release();
    read.release();
    assert!(lock.try_write().is_ok());
}

#[test]
fn a_refused_reader_leaves_no_trace() {
    let lock = RWLock::new(7u8);
    let write = lock.try_write().ok().unwrap();

    assert!(lock.try_read().is_err());
    assert!(lock.read(3).is_err());

    write.release();
    assert!(lock.try_write().is_ok());
}

#[test]
fn a_writer_waits_for_readers() {
    let lock = RWLock::new(7u8);
    let read = lock.read(1).ok().unwrap();

    let claim = lock.write(50).err().unwrap();
    assert_eq!(lock.try_read().err().map(|refusal| refusal.0), Some(TryReadError::HasWriter));
    let claim = claim.resume(50).err().unwrap();

    read.release();
    let write = claim.resume(1).ok().unwrap();
    assert_eq!(lock.try_write().err().map(|refusal| refusal.0), Some(TryWriteError::HasWriter));
    write.release();
    assert!(lock.try_write().is_ok());
}

#[test]
fn a_queued_writer_is_next() {
    let lock = RWLock::new(7u8);
    let first = lock.write(2).ok().unwrap();
    let second = lock.write(10).err().unwrap();
    first.release();

    // nobody holds the lock, but nobody gets past the queue either
    assert_eq!(lock.try_read().err().map(|refusal| refusal.0), Some(TryReadError::QueuedWriter));
    assert_eq!(lock.try_write().err().map(|refusal| refusal.0), Some(TryWriteError::QueuedWriter));
    assert!(lock.read(4).is_err());

    let second = second.resume(3).ok().unwrap();
    assert_eq!(lock.try_read().err().map(|refusal| refusal.0), Some(TryReadError::HasWriter));
    second.release();
    assert!(lock.try_read().is_ok());
}

#[test]
fn a_writer_that_finds_the_queue_waits_for_readers_too() {
    let lock = RWLock::new(7u8);
    let first = lock.write(2).ok().unwrap();
    // has found the lock taken, and is about to queue
    let second = lock.write(1).err().unwrap();
    first.release();

    let read = lock.read(1).ok().unwrap();
    let second = second.resume(50).err().unwrap();
    assert_eq!(*read, 7);
    read.release();

    let second = second.resume(1).ok().unwrap();
    second.release();
    assert!(lock.try_write().is_ok());
}

#[test]
fn a_third_writer_waits_for_the_queue() {
    let lock = RWLock::new(7u8);
    let first = lock.write(2).ok().unwrap();
    let second = lock.write(10).err().unwrap();
    let third = lock.write(10).err().unwrap();

    first.release();
    let third = third.resume(10).err().unwrap();
    let second = second.resume(3).ok().unwrap();
    let third = third.resume(10).err().unwrap();
    second.release();
    let third = third.resume(3).ok().unwrap();
    third.release();
    assert!(lock.try_write().is_ok());
}

#[test]
fn no_turns_no_access() {
    let lock = RWLock::new(7u8);
    assert!(lock.read(0).is_err());

    let claim = lock.write(0).err().unwrap();
    assert!(lock.try_read().is_ok());
    let claim = claim.resume(0).err().unwrap();
    assert!(claim.resume(1).is_err());
}

#[test]
fn a_borrowed_value_can_be_locked() {
    let value = 10isize;
    let lock = spin_sync::RWLock::new(&value);

    let first = lock.read_lock(1).ok().unwrap();
    let second = lock.read_lock(1).ok().unwrap();
    assert_eq!(**first, 10);
    let claim = lock.write_lock(20).err().unwrap();
    assert!(lock.read_lock(2).is_err());
    second.release();
    first.release();

    let write = claim.resume(1).ok().unwrap();
    assert_eq!(**write, 10);
    write.release();
    assert!(lock.write_lock(2).is_ok());
}

#[test]
fn no_update_is_lost() {
    const WRITERS: usize = 10;
    const TIMES: usize = 100;

    let lock = RWLock::new(std::cell::Cell::new(3isize));
    let mut left = [TIMES; WRITERS];
    let mut claims: Vec<_> = (0..WRITERS).map(|_| None).collect();
    let mut guards: Vec<_> = (0..WRITERS).map(|_| None).collect();

    // each writer in turn performs one operation, or reads, or stores what it has read plus one
    while left.iter().any(|&n| n > 0) {
        for i in 0..WRITERS {
            if let Some((guard, read)) = guards[i].take() {
                match read {
                    None => {
                        let guard: spin_sync::WriteGuard<'_, std::cell::Cell<isize>> = guard;
                        let value = guard.get();
                        guards[i] = Some((guard, Some(value)));
                    }
                    Some(value) => {
                        guard.set(value + 1);
                        guard.release();
                        left[i] -= 1;
                    }
                }
            } else if left[i] > 0 {
                let outcome = match claims[i].take() {
                    None => lock.write(1),
                    Some(claim) => {
                        let claim: spin_sync::rwlock::WriteClaim<'_, std::cell::Cell<isize>> = claim;
                        claim.resume(1)
                    }
                };
                match outcome {
                    Ok(guard) => guards[i] = Some((guard, None)),
                    Err(claim) => claims[i] = Some(claim),
                }
            }
        }
    }

    let read = lock.try_read().ok().unwrap();
    assert_eq!(read.get(), 3 + (WRITERS * TIMES) as isize);
    read.release();
    assert!(lock.try_write().is_ok());
}

#[test]
fn a_dropped_guard_frees_the_lock() {
    let lock = RWLock::new(7u8);

    drop(lock.write(2).ok().unwrap());
    drop(lock.read(1).ok().unwrap());
    {
        let _first = lock.try_read().ok().unwrap();
        let _second = lock.try_read().ok().unwrap();
        assert_eq!(lock.try_write().err().map(|refusal| refusal.0), Some(TryWriteError::HasReaders(2)));
    }
    {
        let _write = lock.try_write().ok().unwrap();
        assert_eq!(lock.try_write().err().map(|refusal| refusal.0), Some(TryWriteError::HasWriter));
    }
    assert!(lock.try_write().is_ok());
}

#[test]
fn a_released_guard_is_released_once() {
    let lock = RWLock::new(7u8);
    let first = lock.read(1).ok().unwrap();
    let second = lock.read(1).ok().unwrap();

    first.release();
    assert_eq!(lock.try_write().err().map(|refusal| refusal.0), Some(TryWriteError::HasReaders(1)));
    second.release();
    let write = lock.write(2).ok().unwrap();
    write.release();
    assert!(lock.try_read().is_ok());
}

#[test]
fn a_writer_changes_the_value_for_those_who_come_after() {
    let lock = RWLock::new(std::cell::Cell::new(10isize));

    let write = lock.write(2).ok().unwrap();
    assert_eq!(write.get(), 10);
    assert_eq!(lock.try_read().err().map(|refusal| refusal.0), Some(TryReadError::HasWriter));
    assert_eq!(lock.try_write().err().map(|refusal| refusal.0), Some(TryWriteError::HasWriter));
    write.set(write.get() * 10);
    drop(write);

    assert_eq!(lock.try_read().ok().map(|guard| guard.get()), Some(100));
}

#[test]
fn refused_attempts_are_not_counted() {
    let lock = RWLock::new(7u8);
    let write = lock.write(2).ok().unwrap();
    for _ in 0..3 {
        assert_eq!(lock.try_read().err().map(|refusal| refusal.0), Some(TryReadError::HasWriter));
    }
    drop(write);

    assert_eq!(lock.try_write().ok().map(|guard| *guard), Some(7));
}
