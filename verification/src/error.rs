//! What can go wrong, and how it is told.
use vstd::prelude::*;
use vstd::string::*;

use crate::foreign::{kind_of, RecvFailure};

verus! {

/// Error returned by allocation operations of the `BufferPool` and `IouBuf`.
#[derive(Debug)]
pub enum AllocError {
    /// The system refused the memory for a new slab.
    AllocFailed(std::io::Error),
    /// This allocation would exceed the specified maximum number of buffers for that size.
    MaxPoolLimitReached,
    /// This allocation would exceed the maximum buffer size specification.
    InvalidBufferSize(usize),
    /// The handles of a slab have no valid layout.
    LayoutError(std::alloc::LayoutError),
    /// The pool cannot go on.
    FatalError(&'static str),
    /// No buffer is free.
    OutOfBuffers,
    /// The requested operation requires the `IouBuf` to be unique, but it wasn't.
    NotUnique,
    /// General error.
    General(String),
}

/// The text of the fatal error that a queue without senders gives.
pub open spec fn disconnected_text() -> &'static str {
    "BufferPool recycling queue failed. Sender(s) Disconnected"
}

impl From<RecvFailure> for AllocError {
    fn from(err: RecvFailure) -> (r: AllocError)
        ensures
            err is Empty <==> r is OutOfBuffers,
            err is Disconnected ==> r is FatalError && r->FatalError_0@
                == "BufferPool recycling queue failed. Sender(s) Disconnected"@,
    {
        match err {
            RecvFailure::Empty => AllocError::OutOfBuffers,
            RecvFailure::Disconnected => AllocError::FatalError(
                "BufferPool recycling queue failed. Sender(s) Disconnected",
            ),
        }
    }
}

impl vstd::std_specs::convert::FromSpecImpl<RecvFailure> for AllocError {
    open spec fn obeys_from_spec() -> bool {
        true
    }

    open spec fn from_spec(err: RecvFailure) -> AllocError {
        match err {
            RecvFailure::Empty => AllocError::OutOfBuffers,
            RecvFailure::Disconnected => AllocError::FatalError(disconnected_text()),
        }
    }
}

impl From<std::io::Error> for AllocError {
    fn from(err: std::io::Error) -> (r: AllocError)
        ensures
            r matches AllocError::AllocFailed(e) && e == err,
    {
        AllocError::AllocFailed(err)
    }
}

impl vstd::std_specs::convert::FromSpecImpl<std::io::Error> for AllocError {
    open spec fn obeys_from_spec() -> bool {
        true
    }

    open spec fn from_spec(err: std::io::Error) -> AllocError {
        AllocError::AllocFailed(err)
    }
}

impl From<std::alloc::LayoutError> for AllocError {
    fn from(err: std::alloc::LayoutError) -> (r: AllocError)
        ensures
            r matches AllocError::LayoutError(e) && e == err,
    {
        AllocError::LayoutError(err)
    }
}

impl vstd::std_specs::convert::FromSpecImpl<std::alloc::LayoutError> for AllocError {
    open spec fn obeys_from_spec() -> bool {
        true
    }

    open spec fn from_spec(err: std::alloc::LayoutError) -> AllocError {
        AllocError::LayoutError(err)
    }
}

/// The character of a decimal digit.
pub open spec fn digit(d: nat) -> char {
    (48 + d) as char
}

/// The decimal digits of `n`, the most significant first, without leading zeros.
pub open spec fn decimal(n: nat) -> Seq<char>
    decreases n,
{
    if n < 10 {
        seq![digit(n)]
    } else {
        decimal(n / 10).push(digit(n % 10))
    }
}

/// The number that decimal digits stand for: each digit counts ten times what it would one place
/// further on.
pub open spec fn number(digits: Seq<char>) -> int
    decreases digits.len(),
{
    if digits.len() == 0 {
        0
    } else {
        10 * number(digits.drop_last()) + (digits.last() as int - '0' as int)
    }
}

/// The decimal notation of a number is made of decimal digits, stands for that number, and begins
/// with no zero but where it is the number zero.
pub proof fn law_decimal_stands_for_the_number(n: nat)
    ensures
        decimal(n).len() > 0,
        forall|i: int| 0 <= i < decimal(n).len() ==> '0' <= #[trigger] decimal(n)[i] <= '9',
        number(decimal(n)) == n,
        n > 0 ==> decimal(n)[0] != '0',
        n == 0 ==> decimal(n).len() == 1,
    decreases n,
{
    if n < 10 {
        assert(decimal(n).drop_last().len() == 0);
        assert(number(decimal(n).drop_last()) == 0);
    } else {
        let front = decimal(n / 10);
        law_decimal_stands_for_the_number(n / 10);
        assert(decimal(n).drop_last() =~= front);
        assert(decimal(n)[0] == front[0]);
        assert forall|i: int| 0 <= i < decimal(n).len() implies '0' <= #[trigger] decimal(n)[i]
            <= '9' by {
            if i < front.len() {
                assert(decimal(n)[i] == front[i]);
            }
        }
    }
}

/// The text of one decimal digit.
fn digit_text(d: usize) -> (text: &'static str)
    requires
        d < 10,
    ensures
        text@ == seq![digit(d as nat)],
{
    proof {
        reveal_strlit("0");
        reveal_strlit("1");
        reveal_strlit("2");
        reveal_strlit("3");
        reveal_strlit("4");
        reveal_strlit("5");
        reveal_strlit("6");
        reveal_strlit("7");
        reveal_strlit("8");
        reveal_strlit("9");
    }
    match d {
        0 => "0",
        1 => "1",
        2 => "2",
        3 => "3",
        4 => "4",
        5 => "5",
        6 => "6",
        7 => "7",
        8 => "8",
        _ => "9",
    }
}

/// A number in decimal notation.
fn decimal_text(n: usize) -> (text: String)
    ensures
        text@ == decimal(n as nat),
    decreases n,
{
    if n < 10 {
        digit_text(n).to_owned()
    } else {
        let mut text: String = decimal_text(n / 10);
        text.append(digit_text(n % 10));
        proof {
            assert(text@ =~= decimal(n as nat));
        }
        text
    }
}

impl AllocError {
    /// `text` is the message of this error.
    pub open spec fn reads(self, text: Seq<char>) -> bool {
        match self {
            AllocError::AllocFailed(_) => text == "Allocation failed"@,
            AllocError::MaxPoolLimitReached => text == "Maximum pool limited reached"@,
            AllocError::InvalidBufferSize(n) => text == "Invalid Buffer Size: "@ + decimal(n as nat),
            AllocError::LayoutError(e) => exists|t: String| #[trigger]
                to_string_from_display_ensures::<std::alloc::LayoutError>(&e, t) && text
                    == "Invalid Layout: "@ + t@,
            AllocError::FatalError(s) => text == "Fatal Error: "@ + s@,
            AllocError::OutOfBuffers => text == "Out of Buffers"@,
            AllocError::NotUnique => text
                == "IouBuf operation requires uniqueness, but the refcount is > 1"@,
            AllocError::General(s) => text == "Error : "@ + s@,
        }
    }

    /// The message of this error.
    pub fn message(&self) -> (text: String)
        ensures
            self.reads(text@),
            match self {
                AllocError::AllocFailed(_) => text@ == "Allocation failed"@,
                AllocError::MaxPoolLimitReached => text@ == "Maximum pool limited reached"@,
                AllocError::InvalidBufferSize(n) => text@ == "Invalid Buffer Size: "@ + decimal(
                    *n as nat,
                ),
                AllocError::LayoutError(e) => exists|t: String| #[trigger]
                    to_string_from_display_ensures::<std::alloc::LayoutError>(e, t) && text@
                        == "Invalid Layout: "@ + t@,
                AllocError::FatalError(s) => text@ == "Fatal Error: "@ + s@,
                AllocError::OutOfBuffers => text@ == "Out of Buffers"@,
                AllocError::NotUnique => text@
                    == "IouBuf operation requires uniqueness, but the refcount is > 1"@,
                AllocError::General(s) => text@ == "Error : "@ + s@,
            },
    {
        match self {
            AllocError::AllocFailed(_) => "Allocation failed".to_owned(),
            AllocError::MaxPoolLimitReached => "Maximum pool limited reached".to_owned(),
            AllocError::InvalidBufferSize(n) => "Invalid Buffer Size: ".to_owned().concat(
                decimal_text(*n).as_str(),
            ),
            AllocError::LayoutError(e) => "Invalid Layout: ".to_owned().concat(
                e.to_string().as_str(),
            ),
            AllocError::FatalError(s) => "Fatal Error: ".to_owned().concat(s),
            AllocError::OutOfBuffers => "Out of Buffers".to_owned(),
            AllocError::NotUnique =>
            "IouBuf operation requires uniqueness, but the refcount is > 1".to_owned(),
            AllocError::General(s) => "Error : ".to_owned().concat(s.as_str()),
        }
    }
}

/// The message of an error, by its kind: what an error carries stands at the end of it.
pub proof fn law_message_by_the_error(err: AllocError, text: Seq<char>)
    requires
        err.reads(text),
    ensures
        err is AllocFailed ==> text == "Allocation failed"@,
        err is MaxPoolLimitReached ==> text == "Maximum pool limited reached"@,
        err matches AllocError::InvalidBufferSize(n) ==> text == "Invalid Buffer Size: "@ + decimal(
            n as nat,
        ),
        err matches AllocError::LayoutError(e) ==> exists|t: String| #[trigger]
            to_string_from_display_ensures::<std::alloc::LayoutError>(&e, t) && text
                == "Invalid Layout: "@ + t@,
        err matches AllocError::FatalError(s) ==> text == "Fatal Error: "@ + s@,
        err is OutOfBuffers ==> text == "Out of Buffers"@,
        err is NotUnique ==> text
            == "IouBuf operation requires uniqueness, but the refcount is > 1"@,
        err matches AllocError::General(s) ==> text == "Error : "@ + s@,
{
}

/// An I/O error, as its kind and its message.
#[derive(Debug)]
pub struct IoError {
    /// The kind.
    pub kind: std::io::ErrorKind,
    /// The message.
    pub message: String,
}

/// The kind that `err` has as an I/O error.
pub open spec fn io_kind(err: AllocError) -> std::io::ErrorKind {
    match err {
        AllocError::AllocFailed(e) => kind_of(e),
        AllocError::MaxPoolLimitReached => std::io::ErrorKind::OutOfMemory,
        AllocError::LayoutError(_) => std::io::ErrorKind::Other,
        AllocError::InvalidBufferSize(_) => std::io::ErrorKind::Other,
        AllocError::FatalError(_) => std::io::ErrorKind::Other,
        AllocError::OutOfBuffers => std::io::ErrorKind::OutOfMemory,
        AllocError::NotUnique => std::io::ErrorKind::AddrInUse,
        AllocError::General(_) => std::io::ErrorKind::Other,
    }
}

impl IoError {
    /// This is what `err` is as an I/O error.
    pub open spec fn tells(self, err: AllocError) -> bool {
        &&& self.kind == io_kind(err)
        &&& if err is NotUnique {
            self.message@ == "IouBuf was not unique"@
        } else {
            err.reads(self.message@)
        }
    }

    /// An allocation error as an I/O error.
    pub fn from_alloc(err: AllocError) -> (r: IoError)
        ensures
            r.tells(err),
            match err {
                AllocError::AllocFailed(e) => r.kind == kind_of(e) && r.message@
                    == "Allocation failed"@,
                AllocError::MaxPoolLimitReached => r.kind is OutOfMemory && r.message@
                    == "Maximum pool limited reached"@,
                AllocError::InvalidBufferSize(n) => r.kind is Other && r.message@
                    == "Invalid Buffer Size: "@ + decimal(n as nat),
                AllocError::LayoutError(e) => r.kind is Other && exists|t: String| #[trigger]
                    to_string_from_display_ensures::<std::alloc::LayoutError>(&e, t) && r.message@
                        == "Invalid Layout: "@ + t@,
                AllocError::FatalError(s) => r.kind is Other && r.message@ == "Fatal Error: "@ + s@,
                AllocError::OutOfBuffers => r.kind is OutOfMemory && r.message@
                    == "Out of Buffers"@,
                AllocError::NotUnique => r.kind is AddrInUse && r.message@
                    == "IouBuf was not unique"@,
                AllocError::General(s) => r.kind is Other && r.message@ == "Error : "@ + s@,
            },
    {
        let message: String = err.message();
        match err {
            AllocError::AllocFailed(e) => IoError { kind: e.kind(), message },
            AllocError::MaxPoolLimitReached => IoError {
                kind: std::io::ErrorKind::OutOfMemory,
                message,
            },
            AllocError::LayoutError(_) => IoError { kind: std::io::ErrorKind::Other, message },
            AllocError::InvalidBufferSize(_) => IoError {
                kind: std::io::ErrorKind::Other,
                message,
            },
            AllocError::FatalError(_) => IoError { kind: std::io::ErrorKind::Other, message },
            AllocError::OutOfBuffers => IoError { kind: std::io::ErrorKind::OutOfMemory, message },
            AllocError::NotUnique => IoError {
                kind: std::io::ErrorKind::AddrInUse,
                message: "IouBuf was not unique".to_owned(),
            },
            AllocError::General(_) => IoError { kind: std::io::ErrorKind::Other, message },
        }
    }
}

/// An allocation error as an I/O error: memory that ran out is `OutOfMemory`, a shared buffer is
/// `AddrInUse`, a refused mapping keeps its kind, and everything else is `Other`. The message is
/// that of the allocation error, but for a shared buffer, which has one of its own; what an error
/// carries stands at the end of its message.
pub proof fn law_io_errors_tell_the_cause(io: IoError, err: AllocError)
    requires
        io.tells(err),
    ensures
        io.kind is OutOfMemory <==> err is MaxPoolLimitReached || err is OutOfBuffers || (
        err is AllocFailed && kind_of(err->AllocFailed_0) is OutOfMemory),
        err is NotUnique ==> io.kind is AddrInUse && io.message@ == "IouBuf was not unique"@,
        err is InvalidBufferSize || err is LayoutError || err is FatalError || err is General
            ==> io.kind is Other,
        err matches AllocError::AllocFailed(e) ==> io.kind == kind_of(e),
        !(err is NotUnique) ==> err.reads(io.message@),
        err matches AllocError::InvalidBufferSize(n) ==> io.message@ == "Invalid Buffer Size: "@
            + decimal(n as nat),
        err matches AllocError::FatalError(s) ==> io.message@ == "Fatal Error: "@ + s@,
        err matches AllocError::General(s) ==> io.message@ == "Error : "@ + s@,
        err is AllocFailed ==> io.message@ == "Allocation failed"@,
        err is MaxPoolLimitReached ==> io.message@ == "Maximum pool limited reached"@,
        err is OutOfBuffers ==> io.message@ == "Out of Buffers"@,
{
}

} // verus!
