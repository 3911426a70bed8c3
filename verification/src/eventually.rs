//! Assertions that are tried again until they hold.

use vstd::prelude::*;
use vstd::string::StringExecFns;

use crate::text::{decimal, decimal_text, joined};

verus! {

/// How an attempt at an assertion ended.
#[derive(Clone, Copy, Debug, PartialEq, Eq, Structural)]
pub enum Attempt {
    Passed,
    Panicked,
    /// The time was up before it ended.
    TimedOut,
}

/// What follows from an attempt.
#[derive(Debug)]
pub enum Verdict {
    /// The assertion holds.
    Holds,
    /// It does not, with what the last panic said.
    Fails(String),
    /// Try again after a while.
    Retry { millis: u64 },
}

/// What the last panic said, nothing where there was none.
pub open spec fn info_text(info: Option<String>) -> Seq<char> {
    match info {
        Some(text) => text@,
        None => Seq::empty(),
    }
}

/// Nothing is tried again after the attempt, and the assertion does not hold.
pub open spec fn gives_up(attempt: Attempt, now: u64, deadline: u64) -> bool {
    match attempt {
        Attempt::Passed => false,
        Attempt::Panicked => now >= deadline,
        Attempt::TimedOut => true,
    }
}

/// The time that is left until the deadline.
pub open spec fn time_left(now: u64, deadline: u64) -> int {
    if now <= deadline {
        deadline - now
    } else {
        0
    }
}

/// What follows from an attempt that has ended at the time `now`, in any unit:
/// where it panicked it is tried again, as long as the deadline has not come.
pub fn assert_eventually(attempt: Attempt, now: u64, deadline: u64, info: Option<String>) -> (r:
    Verdict)
    ensures
        match attempt {
            Attempt::Passed => r is Holds,
            Attempt::Panicked => if now >= deadline {
                r is Fails && r->Fails_0@ == info_text(info)
            } else {
                r == (Verdict::Retry { millis: 100 })
            },
            Attempt::TimedOut => r is Fails && r->Fails_0@ == info_text(info),
        },
        r is Fails <==> gives_up(attempt, now, deadline),
        r is Holds <==> attempt is Passed,
{
    let text = match info {
        Some(text) => text,
        None => String::new(),
    };
    match attempt {
        Attempt::Passed => Verdict::Holds,
        Attempt::Panicked => {
            if now >= deadline {
                Verdict::Fails(text)
            } else {
                Verdict::Retry { millis: 100 }
            }
        },
        Attempt::TimedOut => Verdict::Fails(text),
    }
}

/// How long an attempt may take: until the deadline, and no time at all once that
/// has passed.
pub fn remaining(now: u64, deadline: u64) -> (r: u64)
    ensures
        r == (if now <= deadline {
            deadline - now
        } else {
            0
        }),
        r == time_left(now, deadline),
{
    deadline.saturating_sub(now)
}

/// Where a panic happened.
#[derive(Debug)]
pub struct Location {
    pub file: String,
    pub line: u32,
    pub column: u32,
}

/// What is kept of a panic: where it happened, on a line of its own, and its
/// message.
pub fn panic_info(location: Option<Location>, message: &str) -> (r: String)
    ensures
        r@ == (match location {
            Some(l) => "at "@ + l.file@ + ":"@ + decimal(l.line as nat) + ":"@ + decimal(
                l.column as nat,
            ) + "\n"@ + message@,
            None => message@,
        }),
{
    match location {
        Some(l) => {
            let mut out = joined("at ", l.file.as_str());
            out.append(":");
            out.append(decimal_text(l.line as u64).as_str());
            out.append(":");
            out.append(decimal_text(l.column as u64).as_str());
            out.append("\n");
            out.append(message);
            out
        },
        None => message.to_owned(),
    }
}

/// What is said of an assertion that did not hold in time: how long that was,
/// what the caller has to say about it, and below that what the last panic said.
pub fn failure_text(timeout: &str, detail: Option<&str>, panic_info: &str) -> (r: String)
    ensures
        r@ == "assertion not met within "@ + timeout@ + (match detail {
            Some(detail) => ": "@ + detail@,
            None => Seq::empty(),
        }) + (if panic_info@.len() > 0 {
            "\n"@ + panic_info@
        } else {
            Seq::empty()
        }),
{
    let mut out = joined("assertion not met within ", timeout);
    if let Some(detail) = detail {
        out.append(": ");
        out.append(detail);
    }
    if !panic_info.is_empty() {
        out.append("\n");
        out.append(panic_info);
    }
    assert(out@ =~= "assertion not met within "@ + timeout@ + (match detail {
        Some(detail) => ": "@ + detail@,
        None => Seq::empty(),
    }) + (if panic_info@.len() > 0 {
        "\n"@ + panic_info@
    } else {
        Seq::empty()
    }));
    out
}

/// What was caught of a panic is told in full, and nothing where nothing was caught.
pub proof fn law_info_is_told_in_full(info: String)
    ensures
        info_text(Some(info)) == info@,
        info_text(None).len() == 0,
{
}

/// An attempt that panicked is the last one exactly where the deadline has come, one
/// that timed out always is, and one that passed never fails. What is left of the
/// time leads to the deadline, and to nothing beyond it.
pub proof fn law_attempts_until_the_deadline(now: u64, deadline: u64)
    ensures
        gives_up(Attempt::Panicked, now, deadline) <==> deadline <= now,
        gives_up(Attempt::TimedOut, now, deadline),
        !gives_up(Attempt::Passed, now, deadline),
        now <= deadline ==> now + time_left(now, deadline) == deadline,
        now > deadline ==> time_left(now, deadline) == 0,
        time_left(now, deadline) == 0 <==> gives_up(Attempt::Panicked, now, deadline),
{
}

} // verus!
