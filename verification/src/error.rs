//! The errors this crate reports.

use vstd::prelude::*;

pub mod laws;

verus! {

/// A failure of the device underneath: what a [`BlockRead`](crate::BlockRead)
/// or [`BlockDevice`](crate::BlockDevice) answers when it cannot do what
/// it was asked.
#[derive(Debug)]
pub enum BlockError {
    /// The device failed for a reason of its own. Carries its message.
    Io(String),
    /// A read ran out of device: `got` of the `want` bytes at `offset`
    /// were there.
    ShortRead { offset: u64, want: usize, got: usize },
    /// A write to a device that does not take any.
    ReadOnly,
    /// A request refused because its range is not wholly inside the
    /// device.
    OutOfBounds { offset: u64, len: u64, size: u64 },
    /// A driver-specific failure. Carries the driver's message.
    Custom(String),
}

impl BlockError {
    /// Whether this is the answer to a request that reaches past the end
    /// of the device, as opposed to one the device failed to serve.
    pub open spec fn past_end_spec(self) -> bool {
        self is ShortRead || self is OutOfBounds
    }

    /// Whether this is the answer to a request that reaches past the end
    /// of the device, as opposed to one the device failed to serve.
    pub fn is_past_end(&self) -> (r: bool)
        ensures
            r == self.past_end_spec(),
    {
        match self {
            BlockError::ShortRead { .. } => true,
            BlockError::OutOfBounds { .. } => true,
            _ => false,
        }
    }
}

/// Everything that can go wrong reading, editing or writing a partition
/// table.
#[derive(Debug)]
pub enum Error {
    /// The device failed.
    Block(BlockError),
    /// An I/O failure that did not come from a device. Carries its message.
    Io(String),
    /// No GPT signature and no MBR signature found.
    NoPartitionTable,
    /// GPT header was located but failed CRC validation.
    GptHeaderCrc,
    /// GPT partition-entry array failed CRC validation.
    GptEntriesCrc,
    /// GPT header field combination is internally inconsistent.
    GptCorrupt(&'static str),
    /// MBR signature missing or extended-partition chain broken. Reserved:
    /// nothing here reports it yet.
    MbrCorrupt(&'static str),
    /// GPT primary and backup disagree. Reserved: a disagreement is
    /// reported as a [`BackupStatus`](crate::gpt::BackupStatus).
    GptBackupMismatch(&'static str),
    /// The table counts its LBAs in units other than 512 bytes.
    UnsupportedSectorSize(&'static str),
    /// An input was refused: overlap, out-of-bounds, bad alignment and the
    /// like. Carries a short reason.
    Invalid(&'static str),
    /// The table does not fit the device.
    DeviceTooSmall,
}

impl vstd::std_specs::convert::FromSpecImpl<BlockError> for Error {
    open spec fn obeys_from_spec() -> bool {
        true
    }

    open spec fn from_spec(e: BlockError) -> Self {
        Error::Block(e)
    }
}

impl From<BlockError> for Error {
    fn from(e: BlockError) -> (r: Self) {
        Error::Block(e)
    }
}

/// What every fallible function of this crate returns.
pub type Result<T> = core::result::Result<T, Error>;

/// The error for a read of `len` bytes at `offset` that leaves the device.
pub open spec fn past_end(offset: int, len: int) -> Error {
    Error::Block(BlockError::ShortRead { offset: offset as u64, want: len as usize, got: 0 })
}

/// `got` reports what `want` does. How a device words a read past its end,
/// and how many bytes it says were there, is its own business: what is
/// reported is one of the device's `answers`, handed on as it came.
pub open spec fn same_error(got: Error, want: Error, answers: Set<BlockError>) -> bool {
    match want {
        Error::Block(w) => w.past_end_spec() && got is Block && got->Block_0.past_end_spec()
            && answers.contains(got->Block_0),
        _ => got == want,
    }
}

/// A failure that is the device's own, handed on as it came: the bytes were
/// there and it did not deliver them, but gave one of its `answers`.
pub open spec fn device_failure(e: Error, answers: Set<BlockError>) -> bool {
    e is Block && !e->Block_0.past_end_spec() && answers.contains(e->Block_0)
}

/// `got` is what `want` says, or the device let the caller down with one of
/// its `answers`: possible only on one that is not `dependable`.
pub open spec fn outcome<T>(
    got: core::result::Result<T, Error>,
    want: core::result::Result<T, Error>,
    dependable: bool,
    answers: Set<BlockError>,
) -> bool {
    match got {
        Ok(v) => want == Ok::<T, Error>(v),
        Err(e) => {
            ||| want is Err && same_error(e, want->Err_0, answers)
            ||| !dependable && device_failure(e, answers)
        },
    }
}

/// A digit as it is written.
pub open spec fn digit(n: int) -> Seq<char> {
    seq![('0' as int + n) as char]
}

/// A number as it is written in decimal.
pub open spec fn decimal(n: nat) -> Seq<char>
    decreases n,
{
    if n < 10 {
        digit(n as int)
    } else {
        decimal(n / 10) + digit((n % 10) as int)
    }
}

/// Writes a digit.
fn digit_text(n: u64) -> (text: &'static str)
    requires
        n < 10,
    ensures
        text@ == digit(n as int),
{
    proof {
        reveal_strlit("0");
        reveal_strlit("1");
        reveal_strlit("2");
        reveal_strlit("3");
        reveal_strlit("4");
        reveal_strlit("5");
        reveal_strlit("6");
        reveal_strlit("7");
        reveal_strlit("8");
        reveal_strlit("9");
    }
    let text: &'static str = match n {
        0 => "0",
        1 => "1",
        2 => "2",
        3 => "3",
        4 => "4",
        5 => "5",
        6 => "6",
        7 => "7",
        8 => "8",
        _ => "9",
    };
    assert(text@ =~= digit(n as int));
    text
}

/// Writes a number in decimal.
pub fn decimal_text(n: u64) -> (text: String)
    ensures
        text@ == decimal(n as nat),
    decreases n,
{
    if n < 10 {
        return String::from_str(digit_text(n));
    }
    let mut text: String = decimal_text(n / 10);
    text.append(digit_text(n % 10));
    text
}

impl BlockError {
    /// What the error says to a person.
    pub open spec fn text(self) -> Seq<char> {
        match self {
            BlockError::Io(what) => "io: "@ + what@,
            BlockError::ShortRead { offset, want, got } => {
                "short read at "@ + decimal(offset as nat) + ": wanted "@ + decimal(want as nat)
                    + " got "@ + decimal(got as nat)
            },
            BlockError::ReadOnly => "device is read-only"@,
            BlockError::OutOfBounds { offset, len, size } => {
                decimal(offset as nat) + "+"@ + decimal(len as nat) + " past device size "@
                    + decimal(size as nat)
            },
            BlockError::Custom(what) => what@,
        }
    }

    /// What the error says to a person.
    pub fn message(&self) -> (text: String)
        ensures
            text@ == self.text(),
    {
        match self {
            BlockError::Io(what) => String::from_str("io: ").concat(what.as_str()),
            BlockError::ShortRead { offset, want, got } => {
                let mut text: String = String::from_str("short read at ");
                text.append(decimal_text(*offset).as_str());
                text.append(": wanted ");
                text.append(decimal_text(*want as u64).as_str());
                text.append(" got ");
                text.append(decimal_text(*got as u64).as_str());
                text
            },
            BlockError::ReadOnly => String::from_str("device is read-only"),
            BlockError::OutOfBounds { offset, len, size } => {
                let mut text: String = decimal_text(*offset);
                text.append("+");
                text.append(decimal_text(*len).as_str());
                text.append(" past device size ");
                text.append(decimal_text(*size).as_str());
                text
            },
            BlockError::Custom(what) => what.clone(),
        }
    }
}

impl Error {
    /// What the error says to a person.
    pub open spec fn text(self) -> Seq<char> {
        match self {
            Error::Block(e) => e.text(),
            Error::Io(what) => "io: "@ + what@,
            Error::NoPartitionTable => "no GPT or MBR signature found"@,
            Error::GptHeaderCrc => "GPT header CRC32 mismatch"@,
            Error::GptEntriesCrc => "GPT partition-entry array CRC32 mismatch"@,
            Error::GptCorrupt(what) => "GPT corrupt: "@ + what@,
            Error::MbrCorrupt(what) => "MBR corrupt: "@ + what@,
            Error::GptBackupMismatch(what) => "GPT backup mismatch: "@ + what@,
            Error::UnsupportedSectorSize(what) => "unsupported sector size: "@ + what@,
            Error::Invalid(what) => "invalid argument: "@ + what@,
            Error::DeviceTooSmall => "device too small for the requested table"@,
        }
    }

    /// What the error says to a person.
    pub fn message(&self) -> (text: String)
        ensures
            text@ == self.text(),
    {
        match self {
            Error::Block(e) => e.message(),
            Error::Io(what) => String::from_str("io: ").concat(what.as_str()),
            Error::NoPartitionTable => String::from_str("no GPT or MBR signature found"),
            Error::GptHeaderCrc => String::from_str("GPT header CRC32 mismatch"),
            Error::GptEntriesCrc => String::from_str("GPT partition-entry array CRC32 mismatch"),
            Error::GptCorrupt(what) => String::from_str("GPT corrupt: ").concat(what),
            Error::MbrCorrupt(what) => String::from_str("MBR corrupt: ").concat(what),
            Error::GptBackupMismatch(what) => String::from_str("GPT backup mismatch: ").concat(
                what,
            ),
            Error::UnsupportedSectorSize(what) => String::from_str(
                "unsupported sector size: ",
            ).concat(what),
            Error::Invalid(what) => String::from_str("invalid argument: ").concat(what),
            Error::DeviceTooSmall => String::from_str("device too small for the requested table"),
        }
    }
}

} // verus!
