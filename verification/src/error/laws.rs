//! What errors say to a person.

use vstd::prelude::*;

use crate::error::{decimal, outcome, past_end, BlockError, Error};

verus! {

/// The number that digits spell.
pub open spec fn spelled(digits: Seq<char>) -> int
    decreases digits.len(),
{
    if digits.len() == 0 {
        0
    } else {
        10 * spelled(digits.drop_last()) + (digits.last() as int - '0' as int)
    }
}

/// A number is written in digits that spell it, without a zero in front.
pub proof fn lemma_numbers_are_spelled(n: nat)
    ensures
        spelled(decimal(n)) == n,
        decimal(n).len() > 0,
        forall|i: int| 0 <= i < decimal(n).len() ==> '0' <= #[trigger] decimal(n)[i] <= '9',
        n > 0 ==> decimal(n)[0] != '0',
        n == 0 ==> decimal(n).len() == 1,
    decreases n,
{
    let text = decimal(n);
    if n < 10 {
        assert(text.drop_last() =~= Seq::<char>::empty());
        assert(spelled(text.drop_last()) == 0);
    } else {
        lemma_numbers_are_spelled(n / 10);
        let front = decimal(n / 10);
        assert(text.drop_last() =~= front);
        assert(text[0] == front[0]);
        assert forall|i: int| 0 <= i < text.len() implies '0' <= #[trigger] text[i] <= '9' by {
            if i < front.len() {
                assert(text[i] == front[i]);
            }
        }
    }
}

/// What an error of a device says: the device's own words, or what was asked
/// for and what there was.
pub proof fn lemma_device_words(e: BlockError)
    ensures
        match e {
            BlockError::Io(what) => e.text() == "io: "@ + what@,
            BlockError::ShortRead { offset, want, got } => e.text() == "short read at "@ + decimal(
                offset as nat,
            ) + ": wanted "@ + decimal(want as nat) + " got "@ + decimal(got as nat),
            BlockError::ReadOnly => e.text() == "device is read-only"@,
            BlockError::OutOfBounds { offset, len, size } => e.text() == decimal(offset as nat)
                + "+"@ + decimal(len as nat) + " past device size "@ + decimal(size as nat),
            BlockError::Custom(what) => e.text() == what@,
        },
        e.past_end_spec() <==> e is ShortRead || e is OutOfBounds,
{
}

/// What an error says: that of a device what the device says, any other what
/// is wrong and why.
pub proof fn lemma_error_words(e: Error)
    ensures
        match e {
            Error::Block(b) => e.text() == b.text(),
            Error::Io(what) => e.text() == "io: "@ + what@,
            Error::NoPartitionTable => e.text() == "no GPT or MBR signature found"@,
            Error::GptHeaderCrc => e.text() == "GPT header CRC32 mismatch"@,
            Error::GptEntriesCrc => e.text() == "GPT partition-entry array CRC32 mismatch"@,
            Error::GptCorrupt(what) => e.text() == "GPT corrupt: "@ + what@,
            Error::MbrCorrupt(what) => e.text() == "MBR corrupt: "@ + what@,
            Error::GptBackupMismatch(what) => e.text() == "GPT backup mismatch: "@ + what@,
            Error::UnsupportedSectorSize(what) => e.text() == "unsupported sector size: "@ + what@,
            Error::Invalid(what) => e.text() == "invalid argument: "@ + what@,
            Error::DeviceTooSmall => e.text() == "device too small for the requested table"@,
        },
{
}

/// A device's answer says that a range leaves it.
pub open spec fn leaves(e: BlockError) -> bool {
    e is ShortRead || e is OutOfBounds
}

/// On a dependable device what was wanted is what comes: the same value, or
/// the same error. Only where a read leaves the device, how that is worded
/// is one of the device's own answers.
pub proof fn lemma_dependable_devices_deliver<T>(
    got: core::result::Result<T, Error>,
    want: core::result::Result<T, Error>,
    answers: Set<BlockError>,
)
    requires
        outcome(got, want, true, answers),
    ensures
        got is Ok <==> want is Ok,
        got is Ok ==> got->Ok_0 == want->Ok_0,
        got is Err && !(want->Err_0 is Block) ==> got->Err_0 == want->Err_0,
        got is Err && want->Err_0 is Block ==> {
            &&& got->Err_0 is Block
            &&& leaves(want->Err_0->Block_0)
            &&& leaves(got->Err_0->Block_0)
            &&& answers.contains(got->Err_0->Block_0)
        },
{
}

/// On any device a value that comes is the one wanted. Where one was wanted
/// and none comes, the device is not dependable, and what comes is a failure
/// that it gave as its own, not that a read leaves it.
pub proof fn lemma_nothing_else_comes<T>(
    got: core::result::Result<T, Error>,
    want: core::result::Result<T, Error>,
    dependable: bool,
    answers: Set<BlockError>,
)
    requires
        outcome(got, want, dependable, answers),
    ensures
        got is Ok ==> want is Ok && got->Ok_0 == want->Ok_0,
        got is Err && want is Ok ==> {
            &&& !dependable
            &&& got->Err_0 is Block
            &&& !leaves(got->Err_0->Block_0)
            &&& answers.contains(got->Err_0->Block_0)
        },
        got is Err && want is Err && got->Err_0 != want->Err_0 ==> {
            &&& got->Err_0 is Block
            &&& answers.contains(got->Err_0->Block_0)
            &&& leaves(got->Err_0->Block_0) ==> want->Err_0 is Block && leaves(
                want->Err_0->Block_0,
            )
        },
{
}

/// A read that leaves the device is reported with where it begins and how
/// much it asks for, and nothing as what was there.
pub proof fn lemma_past_end(offset: u64, len: usize)
    ensures
        past_end(offset as int, len as int) == Error::Block(
            BlockError::ShortRead { offset, want: len, got: 0 },
        ),
{
}

} // verus!
