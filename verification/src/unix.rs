//! Validation and termination shared by the Unix-like platforms.

use vstd::prelude::*;

use crate::types::{dec_digits, Config, Error, KillOutput, ProcessId};

verus! {

/// Declares nix's `Signal` type so that it can stand in signatures and
/// fields; the value is opaque here and only carried from the name parser to
/// the kill call.
#[verifier::external_type_specification]
#[verifier::external_body]
pub struct ExSignal(nix::sys::signal::Signal);

/// The kernel (swapper/idle) process, which must never be targeted.
pub const KERNEL_PROCESS_ID: u32 = 0;

/// The init process, which must never be targeted.
pub const INIT_PROCESS_ID: u32 = 1;

/// A target pid is acceptable on a Unix-like platform when it is neither the
/// kernel process, nor the init process, nor above the platform ceiling.
pub open spec fn validate_ok(process_id: u32, available_max: u32) -> bool {
    process_id != KERNEL_PROCESS_ID && process_id != INIT_PROCESS_ID && process_id
        <= available_max
}

/// The reason string that rejection of `process_id` carries.
pub open spec fn validate_reason(process_id: u32, available_max: u32) -> Seq<char> {
    if process_id == KERNEL_PROCESS_ID {
        "Not allowed to kill kernel process"@
    } else if process_id == INIT_PROCESS_ID {
        "Not allowed to kill init process"@
    } else {
        "Process id is too large. process id: "@ + dec_digits(process_id as nat)
            + ", available max process id: "@ + dec_digits(available_max as nat)
    }
}

/// Rejects the reserved Unix process ids (kernel and init) and any pid above
/// the platform ceiling; accepts every other pid.
pub fn validate_process_id(process_id: u32, available_max: u32) -> (r: Result<(), Error>)
    ensures
        r is Ok <==> validate_ok(process_id, available_max),
        r matches Err(e) ==> (e matches Error::InvalidProcessId { process_id: p, reason } && p
            == process_id && reason@ == validate_reason(process_id, available_max)),
{
    if process_id == KERNEL_PROCESS_ID {
        Err(
            Error::InvalidProcessId {
                process_id,
                reason: String::from_str("Not allowed to kill kernel process"),
            },
        )
    } else if process_id == INIT_PROCESS_ID {
        Err(
            Error::InvalidProcessId {
                process_id,
                reason: String::from_str("Not allowed to kill init process"),
            },
        )
    } else if process_id <= available_max {
        Ok(())
    } else {
        let mut reason = String::from_str("Process id is too large. process id: ");
        let pid_digits = crate::types::u32_to_string(process_id);
        reason.append(pid_digits.as_str());
        reason.append(", available max process id: ");
        let max_digits = crate::types::u32_to_string(available_max);
        reason.append(max_digits.as_str());
        assert(reason@ =~= validate_reason(process_id, available_max));
        Err(Error::InvalidProcessId { process_id, reason })
    }
}

/// What one signal delivery attempt reported, before classification: the
/// signal was delivered, the process did not exist, or some other failure.
pub enum KillRawOutcome {
    Delivered,
    NoSuchProcess { message: String },
    Failure { message: String },
}

/// Relies on `nix::sys::signal::kill` (and `nix::unistd::Pid::from_raw`):
/// delivers `signal` to the process `pid`; an `ESRCH` failure means that no
/// process with that pid existed. The message of a failure is the text of
/// nix's error value ("ESRCH: No such process" and the like). What comes back
/// depends on the state of the machine, so nothing is promised of the
/// outcome.
#[verifier::external_body]
fn send_signal(pid: i32, signal: nix::sys::signal::Signal) -> (raw: KillRawOutcome) {
    match nix::sys::signal::kill(nix::unistd::Pid::from_raw(pid), signal) {
        Ok(()) => KillRawOutcome::Delivered,
        Err(e) => {
            if e == nix::errno::Errno::ESRCH {
                KillRawOutcome::NoSuchProcess { message: e.to_string() }
            } else {
                KillRawOutcome::Failure { message: e.to_string() }
            }
        },
    }
}

/// The signal names this build's platform recognizes, exactly the arms of
/// nix's `Signal` string parser for it.
pub open spec fn recognized_signal_name(name: Seq<char>) -> bool {
    ||| name == "SIGHUP"@
    ||| name == "SIGINT"@
    ||| name == "SIGQUIT"@
    ||| name == "SIGILL"@
    ||| name == "SIGTRAP"@
    ||| name == "SIGABRT"@
    ||| name == "SIGBUS"@
    ||| name == "SIGFPE"@
    ||| name == "SIGKILL"@
    ||| name == "SIGUSR1"@
    ||| name == "SIGSEGV"@
    ||| name == "SIGUSR2"@
    ||| name == "SIGPIPE"@
    ||| name == "SIGALRM"@
    ||| name == "SIGTERM"@
    ||| name == "SIGSTKFLT"@
    ||| name == "SIGCHLD"@
    ||| name == "SIGCONT"@
    ||| name == "SIGSTOP"@
    ||| name == "SIGTSTP"@
    ||| name == "SIGTTIN"@
    ||| name == "SIGTTOU"@
    ||| name == "SIGURG"@
    ||| name == "SIGXCPU"@
    ||| name == "SIGXFSZ"@
    ||| name == "SIGVTALRM"@
    ||| name == "SIGPROF"@
    ||| name == "SIGWINCH"@
    ||| name == "SIGIO"@
    ||| name == "SIGPWR"@
    ||| name == "SIGSYS"@
}

/// The signal value a recognized name parses to. Which name yields which
/// signal is nix's business; the name only records that parsing depends on
/// the string alone.
pub uninterp spec fn parsed_signal(name: Seq<char>) -> nix::sys::signal::Signal;

/// Relies on nix's `Signal` string parsing (its `FromStr`): `Ok` exactly for
/// the names its match arms recognize on this platform; every other name
/// fails with `EINVAL`, whose text is always "EINVAL: Invalid argument".
#[verifier::external_body]
fn parse_signal_name(name: &str) -> (r: Result<nix::sys::signal::Signal, String>)
    ensures
        r is Ok <==> recognized_signal_name(name@),
        r matches Ok(s) ==> s == parsed_signal(name@),
        r matches Err(message) ==> message@ == "EINVAL: Invalid argument"@,
{
    name.parse::<nix::sys::signal::Signal>().map_err(|e| e.to_string())
}

/// How one raw delivery report is classified: a delivered signal is `Killed`;
/// a report that the process did not exist is the success
/// `MaybeAlreadyTerminated` (the process being gone is what the caller
/// wanted), never a hard error; anything else is a hard `Unix` error.
pub open spec fn classify_kill_spec(
    process_id: ProcessId,
    raw: KillRawOutcome,
) -> Result<KillOutput, Error> {
    match raw {
        KillRawOutcome::Delivered => Ok(KillOutput::Killed { process_id }),
        KillRawOutcome::NoSuchProcess { message } => Ok(
            KillOutput::MaybeAlreadyTerminated {
                process_id,
                source: Error::Unix { message },
            },
        ),
        KillRawOutcome::Failure { message } => Err(Error::Unix { message }),
    }
}

/// Classifies one raw delivery report, exactly as `classify_kill_spec` says.
fn classify_kill_result(process_id: ProcessId, raw: KillRawOutcome) -> (r: Result<
    KillOutput,
    Error,
>)
    ensures
        r == classify_kill_spec(process_id, raw),
{
    match raw {
        KillRawOutcome::Delivered => Ok(KillOutput::Killed { process_id }),
        KillRawOutcome::NoSuchProcess { message } => Ok(
            KillOutput::MaybeAlreadyTerminated {
                process_id,
                source: Error::Unix { message },
            },
        ),
        KillRawOutcome::Failure { message } => Err(Error::Unix { message }),
    }
}

/// A report that the process is already gone is idempotently benign: however
/// often the terminator reports "no such process" for a pid, each such report
/// classifies as `MaybeAlreadyTerminated`, never as a hard error.
pub proof fn lemma_already_gone_is_never_an_error(
    process_id: ProcessId,
    first: KillRawOutcome,
    second: KillRawOutcome,
)
    requires
        first is NoSuchProcess,
        second is NoSuchProcess,
    ensures
        classify_kill_spec(process_id, first) matches Ok(k) && k is MaybeAlreadyTerminated
            && k.pid() == process_id,
        classify_kill_spec(process_id, second) matches Ok(k) && k is MaybeAlreadyTerminated
            && k.pid() == process_id,
{
}

/// Sends `signal` to the process `process_id` and classifies the outcome: a
/// pid too large for the kernel's signed pid type is an `InvalidCast` error;
/// otherwise the outcome is the classification of whatever the delivery
/// reported — `Killed` on delivery, `MaybeAlreadyTerminated` when the process
/// was already gone, a hard `Unix` error for anything else.
pub fn kill(process_id: ProcessId, signal: nix::sys::signal::Signal) -> (r: Result<
    KillOutput,
    Error,
>)
    ensures
        (r matches Err(e) && e is InvalidCast) <==> process_id > 0x7FFF_FFFF,
        process_id > 0x7FFF_FFFF ==> (r matches Err(e)
            && e matches Error::InvalidCast { reason } && reason@
            == "Failed to cast process id to i32"@),
        process_id <= 0x7FFF_FFFF ==> match r {
            Ok(k) => k.pid() == process_id && (k is Killed || (k matches
            KillOutput::MaybeAlreadyTerminated { source, .. } && source is Unix)),
            Err(e) => e is Unix,
        },
{
    if process_id > 0x7FFF_FFFF {
        return Err(
            Error::InvalidCast {
                reason: String::from_str("Failed to cast process id to i32"),
            },
        );
    }
    let raw = send_signal(process_id as i32, signal);
    classify_kill_result(process_id, raw)
}

/// The signal-based terminator: holds the parsed signal and sends it to one
/// pid at a time.
#[derive(Debug)]
pub struct Killer {
    pub signal: nix::sys::signal::Signal,
}

impl Killer {
    /// Sends this killer's signal to `process_id`; see `kill` for the
    /// classification of outcomes.
    pub fn kill(&self, process_id: ProcessId) -> (r: Result<KillOutput, Error>)
        ensures
            (r matches Err(e) && e is InvalidCast) <==> process_id > 0x7FFF_FFFF,
            process_id <= 0x7FFF_FFFF ==> match r {
                Ok(k) => k.pid() == process_id && (k is Killed || (k matches
                KillOutput::MaybeAlreadyTerminated { source, .. } && source is Unix)),
                Err(e) => e is Unix,
            },
    {
        kill(process_id, self.signal)
    }
}

/// Builds the signal-based terminator from the configuration.
pub struct KillerBuilder {}

impl KillerBuilder {
    /// Parses the configured signal name into a terminator: a terminator
    /// holding that name's signal exactly when the platform recognizes the
    /// name; otherwise the `EINVAL` failure.
    pub fn new_killable(&self, config: &Config) -> (r: Result<Killer, Error>)
        ensures
            r is Ok <==> recognized_signal_name(config.signal@),
            r matches Ok(k) ==> k.signal == parsed_signal(config.signal@),
            r matches Err(e) ==> (e matches Error::Unix { message } && message@
                == "EINVAL: Invalid argument"@),
    {
        match parse_signal_name(config.signal.as_str()) {
            Ok(signal) => Ok(Killer { signal }),
            Err(message) => Err(Error::Unix { message }),
        }
    }
}

} // verus!
