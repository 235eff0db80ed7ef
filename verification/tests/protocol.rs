use spin_sync::phase::{
    claim_refusal, reader_refusal, writer_refusal, Phase, TryReadError, TryWriteError,
};
use spin_sync::raw::RawLock;
use spin_sync::word::{
    is_flagged, is_locked, is_queued, reader_count, Op, READER_MASK, WRITE_LOCK_FLAG, WRITE_MASK,
    WRITE_QUEUE_FLAG,
};

#[test]
fn the_word_has_two_flags_and_a_count() {
    assert_eq!(WRITE_LOCK_FLAG, 1 << 63);
    assert_eq!(WRITE_QUEUE_FLAG, 1 << 62);
    assert_eq!(WRITE_MASK, WRITE_LOCK_FLAG | WRITE_QUEUE_FLAG);
    assert_eq!(READER_MASK, WRITE_QUEUE_FLAG - 1);

    for readers in [0, 1, 100, READER_MASK] {
        assert!(!is_locked(readers) && !is_queued(readers) && !is_flagged(readers));
        assert_eq!(reader_count(readers), readers);

        let locked = readers | WRITE_LOCK_FLAG;
        assert!(is_locked(locked) && !is_queued(locked) && is_flagged(locked));
        assert_eq!(reader_count(locked), readers);

        let queued = readers | WRITE_QUEUE_FLAG;
        assert!(!is_locked(queued) && is_queued(queued) && is_flagged(queued));
        assert_eq!(reader_count(queued), readers);
    }
    assert_eq!(reader_count(u64::MAX), READER_MASK);
}

#[test]
fn refusals_say_why() {
    assert_eq!(reader_refusal(3), None);
    assert_eq!(reader_refusal(WRITE_MASK), Some(TryReadError::HasWriter));
    assert_eq!(reader_refusal(WRITE_LOCK_FLAG + 3), Some(TryReadError::HasWriter));
    assert_eq!(reader_refusal(WRITE_QUEUE_FLAG + 3), Some(TryReadError::QueuedWriter));

    assert_eq!(claim_refusal(3), None);
    assert_eq!(claim_refusal(WRITE_MASK), Some(TryWriteError::HasWriter));
    assert_eq!(claim_refusal(WRITE_LOCK_FLAG + 3), Some(TryWriteError::HasWriter));
    assert_eq!(claim_refusal(WRITE_QUEUE_FLAG + 3), Some(TryWriteError::QueuedWriter));

    assert_eq!(writer_refusal(0), None);
    assert_eq!(writer_refusal(WRITE_MASK), None);
    assert_eq!(writer_refusal(WRITE_LOCK_FLAG + 3), Some(TryWriteError::HasReaders(3)));
}

/// What the operation leaves of a word that nobody else touches.
fn apply(op: Op, bits: u64) -> u64 {
    match op {
        Op::Arrive => bits.wrapping_add(1),
        Op::Leave => bits.wrapping_sub(1),
        Op::Claim => bits | WRITE_LOCK_FLAG,
        Op::Unclaim => bits ^ WRITE_LOCK_FLAG,
        Op::Queue => bits | WRITE_QUEUE_FLAG,
        Op::Unqueue => bits ^ WRITE_QUEUE_FLAG,
        Op::Look => bits,
    }
}

/// Where a call ends up, and with which word, when nobody else touches the word.
fn alone(start: Phase, bits: u64, turns: usize) -> (Phase, u64) {
    let mut phase = start;
    let mut word = bits;
    for _ in 0..turns {
        if let Some(op) = phase.op() {
            let found = word;
            word = apply(op, found);
            phase = phase.next(found);
        }
    }
    (phase, word)
}

#[test]
fn attempts_to_read_alone() {
    assert_eq!(alone(Phase::TryReadArriving, 0, 2), (Phase::Reading, 1));
    assert_eq!(alone(Phase::TryReadArriving, 41, 2), (Phase::Reading, 42));
    assert_eq!(
        alone(Phase::TryReadArriving, WRITE_LOCK_FLAG, 2),
        (Phase::ReadRefused(TryReadError::HasWriter), WRITE_LOCK_FLAG)
    );
    assert_eq!(
        alone(Phase::TryReadArriving, WRITE_QUEUE_FLAG + 2, 2),
        (Phase::ReadRefused(TryReadError::QueuedWriter), WRITE_QUEUE_FLAG + 2)
    );
}

#[test]
fn attempts_to_write_alone() {
    assert_eq!(alone(Phase::TryWriteClaiming, 0, 3), (Phase::Writing, WRITE_LOCK_FLAG));
    assert_eq!(
        alone(Phase::TryWriteClaiming, WRITE_LOCK_FLAG + 1, 3),
        (Phase::WriteRefused(TryWriteError::HasWriter), WRITE_LOCK_FLAG + 1)
    );
    assert_eq!(
        alone(Phase::TryWriteClaiming, WRITE_QUEUE_FLAG, 3),
        (Phase::WriteRefused(TryWriteError::QueuedWriter), WRITE_QUEUE_FLAG)
    );
    assert_eq!(
        alone(Phase::TryWriteClaiming, 9, 3),
        (Phase::WriteRefused(TryWriteError::HasReaders(9)), 9)
    );
}

#[test]
fn leaving_restores_the_word() {
    assert_eq!(alone(Phase::ReadArriving, 5, 1), (Phase::Reading, 6));
    assert_eq!(alone(Phase::ReadLeaving, 6, 1), (Phase::Idle, 5));
    assert_eq!(alone(Phase::WriteClaiming, 0, 2), (Phase::Writing, WRITE_LOCK_FLAG));
    assert_eq!(alone(Phase::WriteLeaving, WRITE_LOCK_FLAG, 1), (Phase::Idle, 0));
}

#[test]
fn a_blocked_call_stays_where_it_is() {
    assert_eq!(alone(Phase::WriteDraining, WRITE_LOCK_FLAG + 1, 9).0, Phase::WriteDraining);
    assert_eq!(alone(Phase::WriteQueueing, WRITE_MASK, 9), (Phase::WriteQueueing, WRITE_MASK));
    assert_eq!(alone(Phase::WriteQueued, WRITE_MASK, 9), (Phase::WriteQueued, WRITE_MASK));
    assert_eq!(alone(Phase::ReadArriving, WRITE_LOCK_FLAG, 8), (Phase::ReadArriving, WRITE_LOCK_FLAG));
    assert_eq!(
        alone(Phase::ReadArriving, WRITE_LOCK_FLAG, 9),
        (Phase::ReadRetreating, WRITE_LOCK_FLAG + 1)
    );
}

#[test]
fn a_queued_writer_alone_gets_access() {
    assert_eq!(alone(Phase::WriteQueued, WRITE_QUEUE_FLAG, 3), (Phase::Writing, WRITE_LOCK_FLAG));
}

/// Three writers and three readers on one word, in every one of many orders: whoever has access
/// has it with the right company.
#[test]
fn interleaved_calls_exclude_each_other() {
    for seed in 0..200u64 {
        let mut random = seed * 2 + 1;
        let mut word = 0u64;
        let mut agents = [Phase::Idle; 6];
        for _ in 0..2000 {
            random = random.wrapping_mul(6364136223846793005).wrapping_add(1442695040888963407);
            let i = (random >> 33) as usize % agents.len();
            agents[i] = match agents[i] {
                Phase::Idle | Phase::ReadRefused(_) | Phase::WriteRefused(_) => {
                    match (i % 2, random >> 62) {
                        (0, 0) => Phase::TryReadArriving,
                        (0, _) => Phase::ReadArriving,
                        (_, 0) => Phase::TryWriteClaiming,
                        (_, _) => Phase::WriteClaiming,
                    }
                }
                Phase::Reading => Phase::ReadLeaving,
                Phase::Writing => Phase::WriteLeaving,
                phase => {
                    let found = word;
                    word = apply(phase.op().unwrap(), found);
                    phase.next(found)
                }
            };
            let writers = agents.iter().filter(|&&p| p == Phase::Writing).count();
            let readers = agents.iter().filter(|&&p| p == Phase::Reading).count();
            assert!(writers == 0 || (writers == 1 && readers == 0));
        }
    }
}

#[test]
fn a_raw_lock_serves_its_agents() {
    let lock = RawLock::new();
    let mut reader = lock.agent();
    let mut writer = lock.agent();

    assert!(lock.read(1, &mut reader));
    assert_eq!(lock.try_write(&mut writer), Some(TryWriteError::HasReaders(1)));

    let start = lock.claim(&mut writer);
    assert_eq!(start, Phase::WriteClaiming);
    assert_eq!(lock.write(start, 1, &mut writer), Err(Phase::WriteDraining));
    assert_eq!(lock.write(Phase::WriteDraining, 7, &mut writer), Err(Phase::WriteDraining));
    lock.release_read(&mut reader);
    assert_eq!(lock.try_read(&mut reader), Some(TryReadError::HasWriter));
    assert_eq!(lock.write(Phase::WriteDraining, 1, &mut writer), Ok(()));
    assert!(!lock.read(2, &mut reader));
    lock.release_write(&mut writer);

    assert_eq!(lock.try_write(&mut writer), None);
    lock.release_write(&mut writer);
    assert_eq!(lock.try_read(&mut reader), None);
    lock.release_read(&mut reader);
}
