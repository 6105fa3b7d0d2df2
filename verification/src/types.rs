//! Core data model: process records, configuration, error taxonomy and
//! per-process kill outcomes.

use vstd::prelude::*;

verus! {

/// An operating-system process identifier.
pub type ProcessId = u32;

/// The identifier of a process's parent.
pub type ParentProcessId = ProcessId;

/// One record of the flat process snapshot: a process, its parent and its name.
#[derive(Debug)]
pub struct ProcessInfo {
    pub process_id: ProcessId,
    pub parent_process_id: ParentProcessId,
    pub name: String,
}

pub type ProcessIds = Vec<ProcessId>;

pub type ProcessInfos = Vec<ProcessInfo>;

/// Per-call configuration: the signal to send (ignored on platforms without
/// signals) and whether the target process itself is part of the kill plan.
#[derive(Debug)]
pub struct Config {
    pub signal: String,
    pub include_target: bool,
}

impl Default for Config {
    /// The default configuration sends SIGTERM and includes the target.
    fn default() -> (c: Config)
        ensures
            c.signal@ == "SIGTERM"@,
            c.include_target == true,
    {
        Config { signal: String::from_str("SIGTERM"), include_target: true }
    }
}

/// The platform-specific rule that drops bookkeeping records from the child
/// index; the only rule any platform needs drops records that report
/// themselves as their own parent.
#[derive(Debug, Clone, Copy, PartialEq, Eq, Structural)]
pub enum ChildProcessIdMapFilter {
    /// Keep every record (the Unix-like platforms).
    KeepAll,
    /// Drop self-parented records (Windows, whose System Idle Process reports
    /// itself as its own parent).
    SkipSelfParented,
}

impl ChildProcessIdMapFilter {
    /// Whether this filter drops `info` from the index.
    pub open spec fn excludes_spec(self, info: ProcessInfo) -> bool {
        match self {
            ChildProcessIdMapFilter::KeepAll => false,
            ChildProcessIdMapFilter::SkipSelfParented => info.process_id
                == info.parent_process_id,
        }
    }

    /// Whether this filter drops `info` from the index.
    pub fn excludes(&self, info: &ProcessInfo) -> (r: bool)
        ensures
            r == self.excludes_spec(*info),
    {
        match self {
            ChildProcessIdMapFilter::KeepAll => false,
            ChildProcessIdMapFilter::SkipSelfParented => info.process_id
                == info.parent_process_id,
        }
    }
}

/// The error taxonomy of the library. Messages carry the reason text only;
/// the underlying system error values (an errno, an I/O error) are rendered
/// into the message strings at the boundary rather than stored, so no
/// trailing source value is appended when an error is displayed.
#[derive(Debug)]
pub enum Error {
    /// The target process id is reserved or exceeds the platform ceiling.
    InvalidProcessId { process_id: ProcessId, reason: String },
    /// A numeric conversion between pid representations overflowed.
    InvalidCast { reason: String },
    /// A process directory record could not be parsed.
    InvalidProcEntry { process_id: ProcessId, path: String, reason: String },
    /// An underlying I/O failure.
    Io { message: String },
    /// An underlying Unix system call failure that is not an "already gone" race.
    Unix { message: String },
}

/// The outcome that the terminator reports for a single process id.
#[derive(Debug)]
pub enum KillOutput {
    Killed { process_id: ProcessId },
    MaybeAlreadyTerminated { process_id: ProcessId, source: Error },
}

impl KillOutput {
    /// The process id this outcome speaks of.
    pub open spec fn pid(&self) -> ProcessId {
        match self {
            KillOutput::Killed { process_id } => *process_id,
            KillOutput::MaybeAlreadyTerminated { process_id, .. } => *process_id,
        }
    }
}

/// The public per-process result unit: either the process was killed (with its
/// snapshot metadata), or it was found to be already gone.
#[derive(Debug)]
pub enum Output {
    Killed { process_id: ProcessId, parent_process_id: ParentProcessId, name: String },
    MaybeAlreadyTerminated { process_id: ProcessId, source: Error },
}

impl Output {
    /// The process id this result speaks of.
    pub open spec fn pid(&self) -> ProcessId {
        match self {
            Output::Killed { process_id, .. } => *process_id,
            Output::MaybeAlreadyTerminated { process_id, .. } => *process_id,
        }
    }
}

pub type Outputs = Vec<Output>;

/// The decimal digit character for `d` (meaningful for `d < 10`).
pub open spec fn dec_digit_char(d: nat) -> char {
    if d == 0 {
        '0'
    } else if d == 1 {
        '1'
    } else if d == 2 {
        '2'
    } else if d == 3 {
        '3'
    } else if d == 4 {
        '4'
    } else if d == 5 {
        '5'
    } else if d == 6 {
        '6'
    } else if d == 7 {
        '7'
    } else if d == 8 {
        '8'
    } else {
        '9'
    }
}

/// The decimal digit string of `n`, most significant digit first.
pub open spec fn dec_digits(n: nat) -> Seq<char>
    decreases n,
{
    if n < 10 {
        seq![dec_digit_char(n)]
    } else {
        dec_digits(n / 10) + seq![dec_digit_char(n % 10)]
    }
}

/// The string slice holding the single decimal digit `d`.
fn digit_str(d: u32) -> (s: &'static str)
    requires
        d < 10,
    ensures
        s@ == seq![dec_digit_char(d as nat)],
{
    let s: &'static str = if d == 0 {
        "0"
    } else if d == 1 {
        "1"
    } else if d == 2 {
        "2"
    } else if d == 3 {
        "3"
    } else if d == 4 {
        "4"
    } else if d == 5 {
        "5"
    } else if d == 6 {
        "6"
    } else if d == 7 {
        "7"
    } else if d == 8 {
        "8"
    } else {
        "9"
    };
    proof {
        reveal_strlit("0");
        reveal_strlit("1");
        reveal_strlit("2");
        reveal_strlit("3");
        reveal_strlit("4");
        reveal_strlit("5");
        reveal_strlit("6");
        reveal_strlit("7");
        reveal_strlit("8");
        reveal_strlit("9");
    }
    assert(s@ =~= seq![dec_digit_char(d as nat)]);
    s
}

/// Renders `n` in decimal.
pub fn u32_to_string(n: u32) -> (s: String)
    ensures
        s@ == dec_digits(n as nat),
    decreases n,
{
    if n < 10 {
        String::from_str(digit_str(n))
    } else {
        let prefix = u32_to_string(n / 10);
        prefix.concat(digit_str(n % 10))
    }
}

impl Error {
    /// The human-readable message of this error.
    pub open spec fn message_spec(&self) -> Seq<char> {
        match self {
            Error::InvalidProcessId { process_id, reason } => {
                "Invalid process id: "@ + dec_digits(*process_id as nat) + ". Reason: "@
                    + reason@
            },
            Error::InvalidCast { reason } => "Invalid cast. Reason: "@ + reason@,
            Error::InvalidProcEntry { process_id, path, reason } => {
                "Invalid proc entry. Process id: "@ + dec_digits(*process_id as nat) + ". Path: "@
                    + path@ + ". Reason: "@ + reason@
            },
            Error::Io { message } => "I/O error: "@ + message@,
            Error::Unix { message } => "Unix error: "@ + message@,
        }
    }

    /// Renders the error message; stands in for the usual `Display` output.
    pub fn to_string(&self) -> (s: String)
        ensures
            s@ == self.message_spec(),
    {
        match self {
            Error::InvalidProcessId { process_id, reason } => {
                let mut s = String::from_str("Invalid process id: ");
                let num = u32_to_string(*process_id);
                s.append(num.as_str());
                s.append(". Reason: ");
                s.append(reason.as_str());
                assert(s@ =~= self.message_spec());
                s
            },
            Error::InvalidCast { reason } => {
                let mut s = String::from_str("Invalid cast. Reason: ");
                s.append(reason.as_str());
                assert(s@ =~= self.message_spec());
                s
            },
            Error::InvalidProcEntry { process_id, path, reason } => {
                let mut s = String::from_str("Invalid proc entry. Process id: ");
                let num = u32_to_string(*process_id);
                s.append(num.as_str());
                s.append(". Path: ");
                s.append(path.as_str());
                s.append(". Reason: ");
                s.append(reason.as_str());
                assert(s@ =~= self.message_spec());
                s
            },
            Error::Io { message } => {
                let mut s = String::from_str("I/O error: ");
                s.append(message.as_str());
                assert(s@ =~= self.message_spec());
                s
            },
            Error::Unix { message } => {
                let mut s = String::from_str("Unix error: ");
                s.append(message.as_str());
                assert(s@ =~= self.message_spec());
                s
            },
        }
    }
}

} // verus!
