//! How traffic is generated: at which rate, and in which flows.

use vstd::prelude::*;

verus! {

/// The size of one write: what 50 kbit/s send in a second.
pub const CHUNK_SIZE_BYTES: usize = 6_250;

/// The rate at which a generator starts, in bytes per second: 250 kbit/s.
pub const INITIAL_RATE: u64 = 31_250;

/// The longest duration, in nanoseconds.
pub const MAX_DURATION_NS: u128 = 18_446_744_073_709_551_615_999_999_999;

/// A new rate.
#[derive(Clone, Copy, Debug, PartialEq, Eq, Structural)]
pub struct RateUpdate {
    /// What the limiter lets pass, in bytes per second.
    pub bytes_per_sec: u64,
    /// What is reported, in kilobits per second.
    pub reported_kbps: i64,
}

/// Whether a rate can be expressed in bits.
pub fn rate_fits(kbits_per_sec: u64) -> (r: bool)
    ensures
        r == (kbits_per_sec * 1000 <= u64::MAX),
{
    kbits_per_sec <= 18_446_744_073_709_551
}

/// Kilobits in bytes, rounded down.
pub open spec fn bytes_of_kbits(kbits: nat) -> nat {
    kbits * 1000 / 8
}

/// The new rate, given in kilobits per second.
pub fn update_rate(kbits_per_sec: u64) -> (r: RateUpdate)
    requires
        kbits_per_sec * 1000 <= u64::MAX,
    ensures
        r.bytes_per_sec == kbits_per_sec * 1000 / 8,
        r.bytes_per_sec == bytes_of_kbits(kbits_per_sec as nat),
        r.reported_kbps == kbits_per_sec,
{
    RateUpdate {
        bytes_per_sec: kbits_per_sec * 1000 / 8,
        reported_kbps: kbits_per_sec as i64,
    }
}

/// When flow `i` of `n` starts, in nanoseconds: the flows are spread evenly over
/// the time that one of them lasts.
pub open spec fn stagger_of(duration_ns: nat, i: nat, n: nat) -> nat {
    duration_ns * i / n
}

/// When flow `i` of `n` starts, in nanoseconds.
pub fn stagger_ns(duration_ns: u128, i: u32, n: u32) -> (r: u128)
    requires
        i < n,
        duration_ns * i <= MAX_DURATION_NS,
    ensures
        r == stagger_of(duration_ns as nat, i as nat, n as nat),
{
    let product: u128 = duration_ns * i as u128;
    product / n as u128
}

/// Whether the start of flow `i` can be computed.
pub fn stagger_fits(duration_ns: u128, i: u32) -> (r: bool)
    ensures
        r == (duration_ns * i <= MAX_DURATION_NS),
{
    if i == 0 {
        return true;
    }
    let limit: u128 = MAX_DURATION_NS / i as u128;
    proof {
        let (d, k, m) = (duration_ns as int, i as int, MAX_DURATION_NS as int);
        assert((d * k <= m) == (d <= m / k)) by (nonlinear_arith)
            requires
                k > 0,
                d >= 0,
                m >= 0,
        ;
    }
    duration_ns <= limit
}

/// Every flow starts before the first one ends, and none before those ahead of it.
pub proof fn law_flows_are_staggered(duration_ns: nat, i: nat, j: nat, n: nat)
    requires
        i <= j < n,
    ensures
        stagger_of(duration_ns, i, n) <= stagger_of(duration_ns, j, n),
        duration_ns > 0 ==> stagger_of(duration_ns, j, n) < duration_ns,
        stagger_of(duration_ns, 0, n) == 0,
{
    let (d, a, b, m) = (duration_ns as int, i as int, j as int, n as int);
    assert(d * a / m <= d * b / m) by (nonlinear_arith)
        requires
            0 <= a <= b,
            b < m,
            d >= 0,
    ;
    assert(d > 0 ==> d * b / m < d) by (nonlinear_arith)
        requires
            0 <= b < m,
            d >= 0,
    ;
    assert(d * 0 / m == 0) by (nonlinear_arith)
        requires
            m > 0,
    ;
}

/// What happens to a flow.
#[derive(Clone, Copy, Debug, PartialEq, Eq, Structural)]
pub enum FlowEvent {
    /// It is time to connect: the flow is due, the one before it is over, or the
    /// wait after a failure is.
    Due { cancelled: bool },
    Connected,
    ConnectFailed,
}

/// What follows.
#[derive(Clone, Copy, Debug, PartialEq, Eq, Structural)]
pub enum FlowAction {
    Stop,
    Connect,
    /// Send until the flow has lasted its time or fails.
    Send,
    /// Wait before connecting again.
    Wait { millis: u64 },
}

/// What follows from what happens to a flow: it goes on until it is cancelled, and
/// a second passes after a failure to connect.
pub fn flow_step(event: FlowEvent) -> (r: FlowAction)
    ensures
        r == (match event {
            FlowEvent::Due { cancelled } => if cancelled {
                FlowAction::Stop
            } else {
                FlowAction::Connect
            },
            FlowEvent::Connected => FlowAction::Send,
            FlowEvent::ConnectFailed => FlowAction::Wait { millis: 1000 },
        }),
{
    match event {
        FlowEvent::Due { cancelled } => {
            if cancelled {
                FlowAction::Stop
            } else {
                FlowAction::Connect
            }
        },
        FlowEvent::Connected => FlowAction::Send,
        FlowEvent::ConnectFailed => FlowAction::Wait { millis: 1000 },
    }
}

/// The flows start evenly over the duration: of `n` flows the i-th waits for i parts
/// in n of it, rounded down to the nanosecond.
pub proof fn law_flows_start_evenly(duration_ns: nat, i: nat, n: nat)
    requires
        n > 0,
    ensures
        stagger_of(duration_ns, i, n) * n <= duration_ns * i < (stagger_of(duration_ns, i, n) + 1)
            * n,
{
    let x = duration_ns * i;
    assert((x / n) * n <= x && x < (x / n + 1) * n) by (nonlinear_arith)
        requires
            n > 0,
    ;
}

/// A kilobit is 125 bytes.
pub proof fn law_bytes_of_kbits(kbits: nat)
    ensures
        bytes_of_kbits(kbits) == 125 * kbits,
{
}

} // verus!
