//! What can go wrong when an allocator is created or joined.
use vstd::prelude::*;
use vstd::string::*;

verus! {

#[derive(Debug)]
pub enum Error {
    InvalidMagic,
    InvalidVersion { expected: u32, actual: u32 },
    InvalidSlabSize,
    InvalidNumWorkers,
    InvalidWorkerIndex,
    HeaderMismatch,
    NoAvailableWorkers,
    InvalidFileSize,
    AlreadyInitialized,
    InvalidHeader,
    /// A file operation failed, with the reason the system gave.
    IoError(String),
    /// Mapping the file failed, with the reason the system gave.
    MmapError(String),
}

/// The character for a single decimal digit.
pub open spec fn digit(n: nat) -> char {
    (48 + n) as char
}

/// The decimal digits of `n`, most significant first.
pub open spec fn decimal(n: nat) -> Seq<char>
    decreases n,
{
    if n < 10 {
        seq![digit(n)]
    } else {
        decimal(n / 10).push(digit(n % 10))
    }
}

/// A version word as `major.minor`: the high and the low half in decimal.
pub open spec fn version_text(version: u32) -> Seq<char> {
    decimal((version / 65536) as nat) + "."@ + decimal((version % 65536) as nat)
}

fn push_digit(text: &mut String, n: u32)
    requires
        n < 10,
    ensures
        final(text)@ == old(text)@.push(digit(n as nat)),
{
    proof {
        reveal_strlit("0");
        reveal_strlit("1");
        reveal_strlit("2");
        reveal_strlit("3");
        reveal_strlit("4");
        reveal_strlit("5");
        reveal_strlit("6");
        reveal_strlit("7");
        reveal_strlit("8");
        reveal_strlit("9");
    }
    let ghost before = text@;
    match n {
        0 => text.append("0"),
        1 => text.append("1"),
        2 => text.append("2"),
        3 => text.append("3"),
        4 => text.append("4"),
        5 => text.append("5"),
        6 => text.append("6"),
        7 => text.append("7"),
        8 => text.append("8"),
        _ => text.append("9"),
    }
    assert(text@ =~= before.push(digit(n as nat)));
}

fn push_decimal(text: &mut String, n: u32)
    ensures
        final(text)@ == old(text)@ + decimal(n as nat),
    decreases n,
{
    let ghost before = text@;
    if n >= 10 {
        push_decimal(text, n / 10);
    }
    push_digit(text, n % 10);
    assert(text@ =~= before + decimal(n as nat));
}

fn push_version(text: &mut String, version: u32)
    ensures
        final(text)@ == old(text)@ + version_text(version),
{
    let ghost before = text@;
    assert(version >> 16 == version / 65536) by (bit_vector);
    assert(version & 0xFFFF == version % 65536) by (bit_vector);
    push_decimal(text, version >> 16);
    text.append(".");
    push_decimal(text, version & 0xFFFF);
    assert(text@ =~= before + version_text(version));
}

impl Error {
    /// The message that describes the error.
    pub open spec fn message(&self) -> Seq<char> {
        match self {
            Error::InvalidMagic => "invalid magic"@,
            Error::InvalidVersion { expected, actual } => "invalid version; expected="@
                + version_text(*expected) + "; found="@ + version_text(*actual),
            Error::InvalidSlabSize => "invalid slab size"@,
            Error::InvalidNumWorkers => "invalid num workers"@,
            Error::InvalidWorkerIndex => "invalid worker index"@,
            Error::HeaderMismatch => "header mismatch"@,
            Error::NoAvailableWorkers => "no available workers"@,
            Error::InvalidFileSize => "invalid file size"@,
            Error::AlreadyInitialized => "already initialized"@,
            Error::InvalidHeader => "invalid header"@,
            Error::IoError(err) => "io error; err="@ + err@,
            Error::MmapError(err) => "mmap error; err="@ + err@,
        }
    }

    /// The message that describes the error, as text.
    pub fn to_string(&self) -> (text: String)
        ensures
            text@ == self.message(),
    {
        match self {
            Error::InvalidMagic => "invalid magic".to_owned(),
            Error::InvalidVersion { expected, actual } => {
                let mut text = "invalid version; expected=".to_owned();
                push_version(&mut text, *expected);
                text.append("; found=");
                push_version(&mut text, *actual);
                text
            },
            Error::InvalidSlabSize => "invalid slab size".to_owned(),
            Error::InvalidNumWorkers => "invalid num workers".to_owned(),
            Error::InvalidWorkerIndex => "invalid worker index".to_owned(),
            Error::HeaderMismatch => "header mismatch".to_owned(),
            Error::NoAvailableWorkers => "no available workers".to_owned(),
            Error::InvalidFileSize => "invalid file size".to_owned(),
            Error::AlreadyInitialized => "already initialized".to_owned(),
            Error::InvalidHeader => "invalid header".to_owned(),
            Error::IoError(err) => {
                let mut text = "io error; err=".to_owned();
                text.append(err.as_str());
                text
            },
            Error::MmapError(err) => {
                let mut text = "mmap error; err=".to_owned();
                text.append(err.as_str());
                text
            },
        }
    }
}

/// The number that decimal digits stand for.
pub open spec fn value_of(digits: Seq<char>) -> nat
    decreases digits.len(),
{
    if digits.len() == 0 {
        0
    } else {
        10 * value_of(digits.drop_last()) + (digits.last() as u32 - 48) as nat
    }
}

/// The decimal digits of a number stand for it, and do not start with a zero but for zero itself.
pub proof fn law_decimal(n: nat)
    ensures
        value_of(decimal(n)) == n,
        decimal(n).len() > 0,
        forall|i: int| 0 <= i < decimal(n).len() ==> '0' <= #[trigger] decimal(n)[i] <= '9',
        decimal(n)[0] == '0' <==> n == 0,
        n == 0 ==> decimal(n).len() == 1,
    decreases n,
{
    if n < 10 {
        assert(decimal(n).drop_last() =~= Seq::empty());
        assert(value_of(Seq::<char>::empty()) == 0);
    } else {
        law_decimal(n / 10);
        let more = decimal(n / 10);
        assert(decimal(n) == more.push(digit(n % 10)));
        assert(decimal(n).drop_last() =~= more);
    }
}

/// What the messages say.
pub proof fn law_messages(expected: u32, actual: u32)
    ensures
        Error::InvalidMagic.message() == "invalid magic"@,
        Error::InvalidSlabSize.message() == "invalid slab size"@,
        Error::InvalidNumWorkers.message() == "invalid num workers"@,
        Error::InvalidWorkerIndex.message() == "invalid worker index"@,
        Error::HeaderMismatch.message() == "header mismatch"@,
        Error::NoAvailableWorkers.message() == "no available workers"@,
        Error::InvalidFileSize.message() == "invalid file size"@,
        Error::AlreadyInitialized.message() == "already initialized"@,
        Error::InvalidHeader.message() == "invalid header"@,
        (Error::InvalidVersion { expected, actual }).message() == "invalid version; expected="@
            + decimal((expected / 65536) as nat) + "."@ + decimal((expected % 65536) as nat)
            + "; found="@ + decimal((actual / 65536) as nat) + "."@ + decimal(
            (actual % 65536) as nat,
        ),
{
    assert((Error::InvalidVersion { expected, actual }).message()
        =~= "invalid version; expected="@ + decimal((expected / 65536) as nat) + "."@ + decimal(
        (expected % 65536) as nat,
    ) + "; found="@ + decimal((actual / 65536) as nat) + "."@ + decimal((actual % 65536) as nat));
}

} // verus!
