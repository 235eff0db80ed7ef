//! The word that a lock is made of, and the atomic operations that change it.
//!
//! The two top bits are flags of the writers. All the other bits count the readers.
use vstd::prelude::*;

use crate::cells::{leaves_word, WordCall};

verus! {

/// While this bit is set, a writer holds the lock or is about to.
pub const WRITE_LOCK_FLAG: u64 = 0x8000_0000_0000_0000;

/// While this bit is set, a writer waits for the one that has set `WRITE_LOCK_FLAG`.
pub const WRITE_QUEUE_FLAG: u64 = 0x4000_0000_0000_0000;

/// While one of these bits is set, no reader acquires the lock.
pub const WRITE_MASK: u64 = 0xc000_0000_0000_0000;

/// The bits in which the readers are counted.
pub const READER_MASK: u64 = 0x3fff_ffff_ffff_ffff;

/// What a lock word says, taken apart.
pub ghost struct Word {
    pub locked: bool,
    pub queued: bool,
    pub readers: int,
}

/// The parts of the word `bits`.
pub open spec fn parts(bits: u64) -> Word {
    Word {
        locked: bits & WRITE_LOCK_FLAG != 0,
        queued: bits & WRITE_QUEUE_FLAG != 0,
        readers: (bits & READER_MASK) as int,
    }
}

/// One atomic operation on a lock word. Each of them hands back the word as it was before.
#[derive(Clone, Copy, PartialEq, Eq, Structural, Debug)]
pub enum Op {
    /// Counts one reader more.
    Arrive,
    /// Counts one reader less.
    Leave,
    /// Sets `WRITE_LOCK_FLAG`.
    Claim,
    /// Flips `WRITE_LOCK_FLAG`.
    Unclaim,
    /// Sets `WRITE_QUEUE_FLAG`.
    Queue,
    /// Flips `WRITE_QUEUE_FLAG`.
    Unqueue,
    /// Changes nothing.
    Look,
}

/// The call on the atomic integer that performs `op`.
pub open spec fn call_of(op: Op) -> WordCall {
    match op {
        Op::Arrive => WordCall::Add(1),
        Op::Leave => WordCall::Sub(1),
        Op::Claim => WordCall::Or(WRITE_LOCK_FLAG),
        Op::Unclaim => WordCall::Xor(WRITE_LOCK_FLAG),
        Op::Queue => WordCall::Or(WRITE_QUEUE_FLAG),
        Op::Unqueue => WordCall::Xor(WRITE_QUEUE_FLAG),
        Op::Look => WordCall::Load,
    }
}

/// The word that `op` leaves where it found `bits`. Counting wraps around at the ends.
pub open spec fn apply(op: Op, bits: u64) -> u64 {
    match op {
        Op::Arrive => if bits == u64::MAX {
            0
        } else {
            (bits + 1) as u64
        },
        Op::Leave => if bits == 0 {
            u64::MAX
        } else {
            (bits - 1) as u64
        },
        Op::Claim => bits | WRITE_LOCK_FLAG,
        Op::Unclaim => bits ^ WRITE_LOCK_FLAG,
        Op::Queue => bits | WRITE_QUEUE_FLAG,
        Op::Unqueue => bits ^ WRITE_QUEUE_FLAG,
        Op::Look => bits,
    }
}

/// What `op` does to the parts of a word that has room for one more reader.
pub open spec fn apply_to_parts(op: Op, word: Word) -> Word {
    match op {
        Op::Arrive => Word { readers: word.readers + 1, ..word },
        Op::Leave => Word { readers: word.readers - 1, ..word },
        Op::Claim => Word { locked: true, ..word },
        Op::Unclaim => Word { locked: !word.locked, ..word },
        Op::Queue => Word { queued: true, ..word },
        Op::Unqueue => Word { queued: !word.queued, ..word },
        Op::Look => word,
    }
}

/// Each operation leaves what the call that performs it leaves.
pub proof fn operations_are_their_calls(op: Op, bits: u64)
    ensures
        apply(op, bits) == leaves_word(call_of(op), bits),
{
}

/// Each operation changes one part of the word and leaves the others as they are, as long as the
/// count of readers neither overflows into the flags nor drops below zero.
pub proof fn operations_change_one_part(op: Op, bits: u64)
    requires
        op == Op::Arrive ==> parts(bits).readers < READER_MASK,
        op == Op::Leave ==> parts(bits).readers > 0,
    ensures
        parts(apply(op, bits)) == apply_to_parts(op, parts(bits)),
{
    match op {
        Op::Arrive => {
            let after: u64 = apply(op, bits);
            assert(bits != 0xffff_ffff_ffff_ffff && after == bits + 1
                && after & 0x8000_0000_0000_0000 == bits & 0x8000_0000_0000_0000
                && after & 0x4000_0000_0000_0000 == bits & 0x4000_0000_0000_0000
                && after & 0x3fff_ffff_ffff_ffff == (bits & 0x3fff_ffff_ffff_ffff) + 1)
                by (bit_vector)
                requires
                    bits & 0x3fff_ffff_ffff_ffff < 0x3fff_ffff_ffff_ffff,
                    after == if bits == 0xffff_ffff_ffff_ffff {
                        0
                    } else {
                        bits + 1
                    },
            ;
        },
        Op::Leave => {
            let after: u64 = apply(op, bits);
            new_word_is_free();
            assert(after & 0x8000_0000_0000_0000 == bits & 0x8000_0000_0000_0000
                && after & 0x4000_0000_0000_0000 == bits & 0x4000_0000_0000_0000
                && after & 0x3fff_ffff_ffff_ffff == (bits & 0x3fff_ffff_ffff_ffff) - 1)
                by (bit_vector)
                requires
                    bits & 0x3fff_ffff_ffff_ffff > 0,
                    after == bits - 1,
            ;
        },
        Op::Claim => {
            assert((bits | 0x8000_0000_0000_0000) & 0x8000_0000_0000_0000 != 0
                && (bits | 0x8000_0000_0000_0000) & 0x4000_0000_0000_0000 == bits
                & 0x4000_0000_0000_0000 && (bits | 0x8000_0000_0000_0000) & 0x3fff_ffff_ffff_ffff
                == bits & 0x3fff_ffff_ffff_ffff) by (bit_vector);
        },
        Op::Unclaim => {
            assert(((bits ^ 0x8000_0000_0000_0000) & 0x8000_0000_0000_0000 != 0) == (bits
                & 0x8000_0000_0000_0000 == 0) && (bits ^ 0x8000_0000_0000_0000)
                & 0x4000_0000_0000_0000 == bits & 0x4000_0000_0000_0000 && (bits
                ^ 0x8000_0000_0000_0000) & 0x3fff_ffff_ffff_ffff == bits & 0x3fff_ffff_ffff_ffff)
                by (bit_vector);
        },
        Op::Queue => {
            assert((bits | 0x4000_0000_0000_0000) & 0x4000_0000_0000_0000 != 0
                && (bits | 0x4000_0000_0000_0000) & 0x8000_0000_0000_0000 == bits
                & 0x8000_0000_0000_0000 && (bits | 0x4000_0000_0000_0000) & 0x3fff_ffff_ffff_ffff
                == bits & 0x3fff_ffff_ffff_ffff) by (bit_vector);
        },
        Op::Unqueue => {
            assert(((bits ^ 0x4000_0000_0000_0000) & 0x4000_0000_0000_0000 != 0) == (bits
                & 0x4000_0000_0000_0000 == 0) && (bits ^ 0x4000_0000_0000_0000)
                & 0x8000_0000_0000_0000 == bits & 0x8000_0000_0000_0000 && (bits
                ^ 0x4000_0000_0000_0000) & 0x3fff_ffff_ffff_ffff == bits & 0x3fff_ffff_ffff_ffff)
                by (bit_vector);
        },
        Op::Look => {},
    }
}

/// A word is what its parts say and nothing more: two words with the same parts are one.
pub proof fn parts_determine_the_word(a: u64, b: u64)
    requires
        parts(a) == parts(b),
    ensures
        a == b,
{
    assert(a == b) by (bit_vector)
        requires
            (a & 0x8000_0000_0000_0000 != 0) == (b & 0x8000_0000_0000_0000 != 0),
            (a & 0x4000_0000_0000_0000 != 0) == (b & 0x4000_0000_0000_0000 != 0),
            a & 0x3fff_ffff_ffff_ffff == b & 0x3fff_ffff_ffff_ffff,
    ;
}

/// The word of a new lock has no flag set and counts nobody.
pub proof fn new_word_is_free()
    ensures
        parts(0) == (Word { locked: false, queued: false, readers: 0 }),
{
    assert(0u64 & 0x8000_0000_0000_0000 == 0 && 0u64 & 0x4000_0000_0000_0000 == 0 && 0u64
        & 0x3fff_ffff_ffff_ffff == 0) by (bit_vector);
}

/// A writer that claims a free lock leaves the lock flag and nothing else.
pub proof fn a_locked_word_has_one_flag()
    ensures
        apply(Op::Claim, 0) == WRITE_LOCK_FLAG,
        parts(WRITE_LOCK_FLAG) == (Word { locked: true, queued: false, readers: 0 }),
{
    new_word_is_free();
    operations_change_one_part(Op::Claim, 0);
    assert(0u64 | WRITE_LOCK_FLAG == WRITE_LOCK_FLAG) by (bit_vector);
}

/// A word without flags is the count of the readers.
pub proof fn small_words_are_counts(bits: u64)
    requires
        bits <= READER_MASK,
    ensures
        parts(bits) == (Word { locked: false, queued: false, readers: bits as int }),
{
    assert(bits & 0x8000_0000_0000_0000 == 0 && bits & 0x4000_0000_0000_0000 == 0 && bits
        & 0x3fff_ffff_ffff_ffff == bits) by (bit_vector)
        requires
            bits <= 0x3fff_ffff_ffff_ffff,
    ;
}

/// Whether a writer has set `WRITE_LOCK_FLAG` in `bits`.
pub fn is_locked(bits: u64) -> (r: bool)
    ensures
        r == parts(bits).locked,
    opens_invariants none
    no_unwind
{
    bits & WRITE_LOCK_FLAG > 0
}

/// Whether a writer has set `WRITE_QUEUE_FLAG` in `bits`.
pub fn is_queued(bits: u64) -> (r: bool)
    ensures
        r == parts(bits).queued,
    opens_invariants none
    no_unwind
{
    bits & WRITE_QUEUE_FLAG > 0
}

/// Whether a writer has set one of the two flags in `bits`.
pub fn is_flagged(bits: u64) -> (r: bool)
    ensures
        r == (parts(bits).locked || parts(bits).queued),
    opens_invariants none
    no_unwind
{
    assert((bits & 0xc000_0000_0000_0000 != 0) == (bits & 0x8000_0000_0000_0000 != 0 || bits
        & 0x4000_0000_0000_0000 != 0)) by (bit_vector);
    bits & WRITE_MASK > 0
}

/// How many readers `bits` counts.
pub fn reader_count(bits: u64) -> (r: u64)
    ensures
        r == parts(bits).readers,
        r <= READER_MASK,
    opens_invariants none
    no_unwind
{
    assert(bits & 0x3fff_ffff_ffff_ffff <= 0x3fff_ffff_ffff_ffff) by (bit_vector);
    bits & READER_MASK
}

} // verus!
