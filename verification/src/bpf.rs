//! What the daemon does around its eBPF programs: what it makes of return
//! codes and messages of libbpf, and which counters it reports.

use vstd::prelude::*;

use crate::bpf_abi::CEbpfMetrics;
use crate::bytes::{word, ByteOrder};
use crate::text::{same, trim, trimmed};
use crate::wire::SizeMismatch;

verus! {

/// eBPF TC handle number of the programs.
pub const TC_HANDLE: u32 = 1;

/// eBPF TC priority value of the programs.
pub const TC_PRIORITY: u32 = 1;

/// How much a message of libbpf matters to libbpf.
#[derive(Clone, Copy, Debug, PartialEq, Eq, Structural)]
pub enum PrintLevel {
    Warn,
    Info,
    Debug,
}

/// The level at which a message is logged.
#[derive(Clone, Copy, Debug, PartialEq, Eq, Structural)]
pub enum LogLevel {
    Trace,
    Debug,
    Info,
    Warn,
}

/// A message ready to be logged.
#[derive(Clone, Debug)]
pub struct LogLine {
    pub level: LogLevel,
    pub message: String,
}

/// Noise that libbpf produces when it is asked to detach a TC program that does
/// not exist.
pub open spec fn is_noise(message: Seq<char>) -> bool {
    message == "libbpf: Kernel error message: Parent Qdisc doesn't exists"@
}

/// The level at which a message of libbpf is logged.
pub open spec fn logged_at(level: PrintLevel, message: Seq<char>) -> LogLevel {
    if is_noise(message) {
        LogLevel::Debug
    } else {
        match level {
            PrintLevel::Debug => LogLevel::Trace,
            PrintLevel::Info => LogLevel::Info,
            PrintLevel::Warn => LogLevel::Warn,
        }
    }
}

/// How a message of libbpf is logged: without the white space around it; noise
/// at debug level, debug messages at trace level since they are really verbose,
/// all others at the level they came with.
pub fn print_callback(level: PrintLevel, message: &str) -> (r: LogLine)
    ensures
        r.message@ == trim(message@),
        r.level == (if is_noise(trim(message@)) {
            LogLevel::Debug
        } else {
            match level {
                PrintLevel::Debug => LogLevel::Trace,
                PrintLevel::Info => LogLevel::Info,
                PrintLevel::Warn => LogLevel::Warn,
            }
        }),
        r.level == logged_at(level, trim(message@)),
{
    let message = trimmed(message);
    if same(message.as_str(), "libbpf: Kernel error message: Parent Qdisc doesn't exists") {
        return LogLine { level: LogLevel::Debug, message };
    }
    let level = match level {
        PrintLevel::Debug => LogLevel::Trace,
        PrintLevel::Info => LogLevel::Info,
        PrintLevel::Warn => LogLevel::Warn,
    };
    LogLine { level, message }
}

/// The error numbers that the daemon tells apart.
#[derive(Clone, Copy, Debug, PartialEq, Eq, Structural)]
pub enum ErrnoKind {
    Einval,
    Enoent,
    Other,
}

/// Which of the error numbers a code is: 22 is `EINVAL`, 2 is `ENOENT`.
pub open spec fn errno_kind(code: i32) -> ErrnoKind {
    if code == 22 {
        ErrnoKind::Einval
    } else if code == 2 {
        ErrnoKind::Enoent
    } else {
        ErrnoKind::Other
    }
}

/// `nix::errno::Errno::from_raw` knows the code of `EINVAL`, which is 22 on
/// Linux, that of `ENOENT`, which is 2, and takes no other code for either.
#[verifier::external_body]
fn nix_errno(code: i32) -> (r: ErrnoKind)
    ensures
        r == errno_kind(code),
{
    match nix::errno::Errno::from_raw(code) {
        nix::errno::Errno::EINVAL => ErrnoKind::Einval,
        nix::errno::Errno::ENOENT => ErrnoKind::Enoent,
        _ => ErrnoKind::Other,
    }
}

/// The return code says that there was nothing to detach: `EINVAL` where the
/// parent qdisc does not exist, `ENOENT` where it holds no such hook. libbpf
/// hands both out negated; the sign does not matter here.
pub open spec fn not_attached(ret: i32) -> bool {
    ret == -22 || ret == -2 || ret == 22 || ret == 2
}

/// Whether a return code says that there was nothing to detach.
pub fn is_not_attached(ret: i32) -> (r: bool)
    ensures
        r == not_attached(ret),
{
    let code: i32 = if i32::MIN < ret && ret < 0 {
        -ret
    } else {
        ret
    };
    match nix_errno(code) {
        ErrnoKind::Einval | ErrnoKind::Enoent => true,
        ErrnoKind::Other => false,
    }
}

/// A program could not be detached, with the return code that says why.
#[derive(Clone, Copy, Debug, PartialEq, Eq, Structural)]
pub enum DetachError {
    Tc(i32),
    Xdp(i32),
}

/// The return code says that something could not be detached.
pub open spec fn detach_failed(ret: i32) -> bool {
    ret != 0 && !not_attached(ret)
}

/// What `bpf_tc_detach` returned counts as a failure only if there was something
/// to detach.
pub fn detach_tc(ret: i32) -> (r: Result<(), DetachError>)
    ensures
        r == (if ret != 0 && !not_attached(ret) {
            Err(DetachError::Tc(ret))
        } else {
            Ok(())
        }),
        r is Err <==> detach_failed(ret),
{
    if ret != 0 && !is_not_attached(ret) {
        Err(DetachError::Tc(ret))
    } else {
        Ok(())
    }
}

/// What `bpf_xdp_detach` returned counts as a failure only if there was something
/// to detach.
pub fn detach_xdp(ret: i32) -> (r: Result<(), DetachError>)
    ensures
        r == (if ret != 0 && !not_attached(ret) {
            Err(DetachError::Xdp(ret))
        } else {
            Ok(())
        }),
        r is Err <==> detach_failed(ret),
{
    if ret != 0 && !is_not_attached(ret) {
        Err(DetachError::Xdp(ret))
    } else {
        Ok(())
    }
}

/// The outcome of detaching both programs: both have been tried by now, so that
/// a failure of one does not keep the other attached. The TC one is reported
/// first.
pub fn detach(tc_ret: i32, xdp_ret: i32) -> (r: Result<(), DetachError>)
    ensures
        r == (if tc_ret != 0 && !not_attached(tc_ret) {
            Err(DetachError::Tc(tc_ret))
        } else if xdp_ret != 0 && !not_attached(xdp_ret) {
            Err(DetachError::Xdp(xdp_ret))
        } else {
            Ok(())
        }),
        r is Err <==> detach_failed(tc_ret) || detach_failed(xdp_ret),
{
    match detach_tc(tc_ret) {
        Err(e) => Err(e),
        Ok(()) => detach_xdp(xdp_ret),
    }
}

/// Which counters are reported: a daemon fills only those of its own programs.
#[derive(Clone, Copy, Debug, PartialEq, Eq, Structural)]
pub enum MetricsSet {
    Encap,
    Decap,
}

/// One counter of a family.
#[derive(Clone, Debug)]
pub struct BpfMetricSeries {
    /// Where the counter stands among all counters.
    pub index: usize,
    pub labels: Vec<(&'static str, &'static str)>,
}

/// Counters that are reported under one name.
#[derive(Clone, Debug)]
pub struct BpfMetricFamily {
    pub name: &'static str,
    pub help: &'static str,
    pub series: Vec<BpfMetricSeries>,
}

/// A [`BpfMetricSeries`] over sequences.
#[verifier::ext_equal]
pub struct SeriesView {
    pub index: nat,
    pub labels: Seq<(Seq<char>, Seq<char>)>,
}

/// A [`BpfMetricFamily`] over sequences.
#[verifier::ext_equal]
pub struct FamilyView {
    pub name: Seq<char>,
    pub help: Seq<char>,
    pub series: Seq<SeriesView>,
}

impl View for BpfMetricSeries {
    type V = SeriesView;

    open spec fn view(&self) -> SeriesView {
        SeriesView {
            index: self.index as nat,
            labels: self.labels@.map_values(|l: (&'static str, &'static str)| (l.0@, l.1@)),
        }
    }
}

impl View for BpfMetricFamily {
    type V = FamilyView;

    open spec fn view(&self) -> FamilyView {
        FamilyView {
            name: self.name@,
            help: self.help@,
            series: self.series@.map_values(|s: BpfMetricSeries| s@),
        }
    }
}

/// The views of families.
pub open spec fn family_views(list: Seq<BpfMetricFamily>) -> Seq<FamilyView> {
    list.map_values(|f: BpfMetricFamily| f@)
}

/// A counter without labels.
pub open spec fn plain_view(index: nat) -> SeriesView {
    SeriesView { index, labels: Seq::empty() }
}

/// A counter with one label.
pub open spec fn labelled_view(index: nat, key: Seq<char>, value: Seq<char>) -> SeriesView {
    SeriesView { index, labels: seq![(key, value)] }
}

fn plain(index: usize) -> (r: BpfMetricSeries)
    ensures
        r@ == plain_view(index as nat),
{
    let r = BpfMetricSeries { index, labels: Vec::new() };
    assert(r@.labels =~= Seq::empty());
    r
}

fn labelled(index: usize, key: &'static str, value: &'static str) -> (r: BpfMetricSeries)
    ensures
        r@ == labelled_view(index as nat, key@, value@),
{
    let r = BpfMetricSeries { index, labels: vec![(key, value)] };
    assert(r@.labels =~= seq![(key@, value@)]);
    r
}

fn family(name: &'static str, help: &'static str, series: Vec<BpfMetricSeries>) -> (r:
    BpfMetricFamily)
    ensures
        r@.name == name@,
        r@.help == help@,
        r@.series == series@.map_values(|s: BpfMetricSeries| s@),
{
    BpfMetricFamily { name, help, series }
}

/// What is reported of the decapsulation programs.
pub open spec fn decap_families() -> Seq<FamilyView> {
    seq![
        FamilyView {
            name: "erez_decap_decapsulated_packets"@,
            help: "Total number of packets successfully decapsulated by erez_decap"@,
            series: seq![
                plain_view(0),
            ],
        },
        FamilyView {
            name: "erez_decap_errors"@,
            help: "Total number of errors encountered by erez_decap"@,
            series: seq![
                labelled_view(1, "reason"@, "decap-failed"@),
                labelled_view(2, "reason"@, "decrement-inner-ttl-failed"@),
                labelled_view(3, "reason"@, "fib-lookup-failed"@),
                labelled_view(4, "reason"@, "redirect-failed"@),
                labelled_view(5, "reason"@, "same-ifindex"@),
            ],
        },
        FamilyView {
            name: "erez_decap_parse_errors"@,
            help: "Total number of parse errors encountered by erez_decap"@,
            series: seq![
                labelled_view(6, "reason"@, "short-packet"@),
            ],
        },
        FamilyView {
            name: "erez_decap_processed_packets"@,
            help: "Total number of packets processed by erez_decap"@,
            series: seq![
                plain_view(7),
            ],
        },
        FamilyView {
            name: "erez_decap_redirected_packets"@,
            help: "Total number of packets redirected by erez_decap"@,
            series: seq![
                plain_view(8),
            ],
        },
        FamilyView {
            name: "erez_decap_skipped_packets"@,
            help: "Total number of packets skipped by erez_decap"@,
            series: seq![
                labelled_view(9, "reason"@, "unsupported-inner-l3-proto"@),
                labelled_view(10, "reason"@, "unsupported-outer-l3-proto"@),
                labelled_view(11, "reason"@, "unsupported-outer-l4-proto"@),
            ],
        },
    ]
}

/// The families of counters that the decapsulation daemon reports.
pub fn decap_metric_families() -> (r: Vec<BpfMetricFamily>)
    ensures
        family_views(r@) == decap_families(),
{
    let f0 = family(
        "erez_decap_decapsulated_packets",
        "Total number of packets successfully decapsulated by erez_decap",
        vec![
            plain(0),
        ],
    );
    assert(f0@.series =~= decap_families()[0].series);
    let f1 = family(
        "erez_decap_errors",
        "Total number of errors encountered by erez_decap",
        vec![
            labelled(1, "reason", "decap-failed"),
            labelled(2, "reason", "decrement-inner-ttl-failed"),
            labelled(3, "reason", "fib-lookup-failed"),
            labelled(4, "reason", "redirect-failed"),
            labelled(5, "reason", "same-ifindex"),
        ],
    );
    assert(f1@.series =~= decap_families()[1].series);
    let f2 = family(
        "erez_decap_parse_errors",
        "Total number of parse errors encountered by erez_decap",
        vec![
            labelled(6, "reason", "short-packet"),
        ],
    );
    assert(f2@.series =~= decap_families()[2].series);
    let f3 = family(
        "erez_decap_processed_packets",
        "Total number of packets processed by erez_decap",
        vec![
            plain(7),
        ],
    );
    assert(f3@.series =~= decap_families()[3].series);
    let f4 = family(
        "erez_decap_redirected_packets",
        "Total number of packets redirected by erez_decap",
        vec![
            plain(8),
        ],
    );
    assert(f4@.series =~= decap_families()[4].series);
    let f5 = family(
        "erez_decap_skipped_packets",
        "Total number of packets skipped by erez_decap",
        vec![
            labelled(9, "reason", "unsupported-inner-l3-proto"),
            labelled(10, "reason", "unsupported-outer-l3-proto"),
            labelled(11, "reason", "unsupported-outer-l4-proto"),
        ],
    );
    assert(f5@.series =~= decap_families()[5].series);
    let r = vec![f0, f1, f2, f3, f4, f5];
    assert(family_views(r@) =~= decap_families());
    r
}

/// What is reported of the encapsulation programs.
pub open spec fn encap_families() -> Seq<FamilyView> {
    seq![
        FamilyView {
            name: "erez_encap_encapsulated_packets"@,
            help: "Total number of packets successfully encapsulated by erez_encap"@,
            series: seq![
                plain_view(12),
            ],
        },
        FamilyView {
            name: "erez_encap_errors"@,
            help: "Total number of errors encountered by erez_encap"@,
            series: seq![
                labelled_view(13, "reason"@, "encap-failed"@),
            ],
        },
        FamilyView {
            name: "erez_encap_fib_entry_validation_errors"@,
            help: "Total number of invalid FIB entries observed by erez_encap"@,
            series: seq![
                labelled_view(14, "reason"@, "invalid-nexthop-count"@),
                labelled_view(15, "reason"@, "zero-weight"@),
                labelled_view(16, "reason"@, "invalid-weight-sum"@),
            ],
        },
        FamilyView {
            name: "erez_encap_fib_hits"@,
            help: "Total number of e_fib hits encountered by erez_encap"@,
            series: seq![
                plain_view(17),
            ],
        },
        FamilyView {
            name: "erez_encap_fib_misses"@,
            help: "Total number of e_fib misses encountered by erez_encap"@,
            series: seq![
                plain_view(18),
            ],
        },
        FamilyView {
            name: "erez_encap_parse_errors"@,
            help: "Total number of parse errors encountered by erez_encap"@,
            series: seq![
                labelled_view(19, "reason"@, "dest-nlri-load"@),
                labelled_view(20, "reason"@, "l4-proto-load"@),
            ],
        },
        FamilyView {
            name: "erez_encap_processed_packets"@,
            help: "Total number of packets processed by erez_encap"@,
            series: seq![
                plain_view(21),
            ],
        },
        FamilyView {
            name: "erez_encap_skipped_packets"@,
            help: "Total number of packets skipped by erez_encap"@,
            series: seq![
                labelled_view(22, "reason"@, "unsupported-l3-proto"@),
                labelled_view(23, "reason"@, "unsupported-l4-proto"@),
            ],
        },
        FamilyView {
            name: "erez_encap_sticky_nexthop"@,
            help: "Total number of sticky nexthop lookups and stores by erez_encap"@,
            series: seq![
                labelled_view(24, "result"@, "hit"@),
                labelled_view(25, "result"@, "miss"@),
                labelled_view(26, "result"@, "store"@),
            ],
        },
        FamilyView {
            name: "erez_sockops_rtt_callback_registrations"@,
            help: "Total number of RTT callback registration attempts by erez_sockops"@,
            series: seq![
                labelled_view(27, "result"@, "success"@),
                labelled_view(28, "result"@, "failed"@),
            ],
        },
        FamilyView {
            name: "erez_sockops_rtt_callbacks"@,
            help: "Total number of RTT callbacks processed by erez_sockops"@,
            series: seq![
                plain_view(29),
            ],
        },
        FamilyView {
            name: "erez_sockops_rtt_events"@,
            help: "Total number of RTT events emitted by erez_sockops"@,
            series: seq![
                plain_view(30),
            ],
        },
        FamilyView {
            name: "erez_sockops_rtt_event_drops"@,
            help: "Total number of RTT events dropped by erez_sockops"@,
            series: seq![
                labelled_view(31, "reason"@, "ringbuf-full"@),
            ],
        },
        FamilyView {
            name: "erez_sockops_rtt_skipped"@,
            help: "Total number of RTT callbacks skipped by erez_sockops"@,
            series: seq![
                labelled_view(32, "reason"@, "sticky-nexthop-miss"@),
                labelled_view(33, "reason"@, "unsupported-family"@),
            ],
        },
    ]
}

/// The families of counters that the encapsulation daemon reports.
pub fn encap_metric_families() -> (r: Vec<BpfMetricFamily>)
    ensures
        family_views(r@) == encap_families(),
{
    let f0 = family(
        "erez_encap_encapsulated_packets",
        "Total number of packets successfully encapsulated by erez_encap",
        vec![
            plain(12),
        ],
    );
    assert(f0@.series =~= encap_families()[0].series);
    let f1 = family(
        "erez_encap_errors",
        "Total number of errors encountered by erez_encap",
        vec![
            labelled(13, "reason", "encap-failed"),
        ],
    );
    assert(f1@.series =~= encap_families()[1].series);
    let f2 = family(
        "erez_encap_fib_entry_validation_errors",
        "Total number of invalid FIB entries observed by erez_encap",
        vec![
            labelled(14, "reason", "invalid-nexthop-count"),
            labelled(15, "reason", "zero-weight"),
            labelled(16, "reason", "invalid-weight-sum"),
        ],
    );
    assert(f2@.series =~= encap_families()[2].series);
    let f3 = family(
        "erez_encap_fib_hits",
        "Total number of e_fib hits encountered by erez_encap",
        vec![
            plain(17),
        ],
    );
    assert(f3@.series =~= encap_families()[3].series);
    let f4 = family(
        "erez_encap_fib_misses",
        "Total number of e_fib misses encountered by erez_encap",
        vec![
            plain(18),
        ],
    );
    assert(f4@.series =~= encap_families()[4].series);
    let f5 = family(
        "erez_encap_parse_errors",
        "Total number of parse errors encountered by erez_encap",
        vec![
            labelled(19, "reason", "dest-nlri-load"),
            labelled(20, "reason", "l4-proto-load"),
        ],
    );
    assert(f5@.series =~= encap_families()[5].series);
    let f6 = family(
        "erez_encap_processed_packets",
        "Total number of packets processed by erez_encap",
        vec![
            plain(21),
        ],
    );
    assert(f6@.series =~= encap_families()[6].series);
    let f7 = family(
        "erez_encap_skipped_packets",
        "Total number of packets skipped by erez_encap",
        vec![
            labelled(22, "reason", "unsupported-l3-proto"),
            labelled(23, "reason", "unsupported-l4-proto"),
        ],
    );
    assert(f7@.series =~= encap_families()[7].series);
    let f8 = family(
        "erez_encap_sticky_nexthop",
        "Total number of sticky nexthop lookups and stores by erez_encap",
        vec![
            labelled(24, "result", "hit"),
            labelled(25, "result", "miss"),
            labelled(26, "result", "store"),
        ],
    );
    assert(f8@.series =~= encap_families()[8].series);
    let f9 = family(
        "erez_sockops_rtt_callback_registrations",
        "Total number of RTT callback registration attempts by erez_sockops",
        vec![
            labelled(27, "result", "success"),
            labelled(28, "result", "failed"),
        ],
    );
    assert(f9@.series =~= encap_families()[9].series);
    let f10 = family(
        "erez_sockops_rtt_callbacks",
        "Total number of RTT callbacks processed by erez_sockops",
        vec![
            plain(29),
        ],
    );
    assert(f10@.series =~= encap_families()[10].series);
    let f11 = family(
        "erez_sockops_rtt_events",
        "Total number of RTT events emitted by erez_sockops",
        vec![
            plain(30),
        ],
    );
    assert(f11@.series =~= encap_families()[11].series);
    let f12 = family(
        "erez_sockops_rtt_event_drops",
        "Total number of RTT events dropped by erez_sockops",
        vec![
            labelled(31, "reason", "ringbuf-full"),
        ],
    );
    assert(f12@.series =~= encap_families()[12].series);
    let f13 = family(
        "erez_sockops_rtt_skipped",
        "Total number of RTT callbacks skipped by erez_sockops",
        vec![
            labelled(32, "reason", "sticky-nexthop-miss"),
            labelled(33, "reason", "unsupported-family"),
        ],
    );
    assert(f13@.series =~= encap_families()[13].series);
    let r = vec![f0, f1, f2, f3, f4, f5, f6, f7, f8, f9, f10, f11, f12, f13];
    assert(family_views(r@) =~= encap_families());
    r
}

/// The positions of the counters of families, in the order of the families.
pub open spec fn indices(list: Seq<FamilyView>) -> Seq<nat>
    decreases list.len(),
{
    if list.len() == 0 {
        Seq::empty()
    } else {
        indices(list.drop_last()) + list.last().series.map_values(|s: SeriesView| s.index)
    }
}

/// Every counter has a place: the families of the two daemons name the counters
/// one after the other, each of them once.
pub proof fn law_every_counter_reported_once()
    ensures
        indices(decap_families()) == Seq::new(12, |i: int| i as nat),
        indices(encap_families()) == Seq::new(22, |i: int| (12 + i) as nat),
{
    lemma_decap_indices();
    lemma_encap_indices();
}

proof fn lemma_indices_push(list: Seq<FamilyView>, f: FamilyView)
    ensures
        indices(list.push(f)) == indices(list) + f.series.map_values(|s: SeriesView| s.index),
{
    assert(list.push(f).drop_last() =~= list);
}

proof fn lemma_indices_from(list: Seq<FamilyView>, k: int, start: nat, next: nat)
    requires
        0 <= k < list.len(),
        indices(list.take(k)) == Seq::new((next - start) as nat, |i: int| (start + i) as nat),
        start <= next,
        forall|i: int|
            0 <= i < list[k].series.len() ==> (#[trigger] list[k].series[i]).index == next + i,
    ensures
        indices(list.take(k + 1)) == Seq::new(
            (next + list[k].series.len() - start) as nat,
            |i: int| (start + i) as nat,
        ),
{
    assert(list.take(k + 1) =~= list.take(k).push(list[k]));
    lemma_indices_push(list.take(k), list[k]);
    assert(indices(list.take(k + 1)) =~= Seq::new(
        (next + list[k].series.len() - start) as nat,
        |i: int| (start + i) as nat,
    ));
}

proof fn lemma_decap_indices()
    ensures
        indices(decap_families()) == Seq::new(12, |i: int| (0 + i) as nat),
{
    let list = decap_families();
    assert(list.take(0) =~= Seq::empty());
    assert(indices(list.take(0)) =~= Seq::new(0, |i: int| (0 + i) as nat));
    lemma_indices_from(list, 0, 0, 0);
    lemma_indices_from(list, 1, 0, 1);
    lemma_indices_from(list, 2, 0, 6);
    lemma_indices_from(list, 3, 0, 7);
    lemma_indices_from(list, 4, 0, 8);
    lemma_indices_from(list, 5, 0, 9);
    assert(list.take(6) =~= list);
    assert(indices(list) =~= Seq::new(12, |i: int| (0 + i) as nat));
}

proof fn lemma_encap_indices()
    ensures
        indices(encap_families()) == Seq::new(22, |i: int| (12 + i) as nat),
{
    let list = encap_families();
    assert(list.take(0) =~= Seq::empty());
    assert(indices(list.take(0)) =~= Seq::new(0, |i: int| (12 + i) as nat));
    lemma_indices_from(list, 0, 12, 12);
    lemma_indices_from(list, 1, 12, 13);
    lemma_indices_from(list, 2, 12, 14);
    lemma_indices_from(list, 3, 12, 17);
    lemma_indices_from(list, 4, 12, 18);
    lemma_indices_from(list, 5, 12, 19);
    lemma_indices_from(list, 6, 12, 21);
    lemma_indices_from(list, 7, 12, 22);
    lemma_indices_from(list, 8, 12, 24);
    lemma_indices_from(list, 9, 12, 27);
    lemma_indices_from(list, 10, 12, 29);
    lemma_indices_from(list, 11, 12, 30);
    lemma_indices_from(list, 12, 12, 31);
    lemma_indices_from(list, 13, 12, 32);
    assert(list.take(14) =~= list);
    assert(indices(list) =~= Seq::new(22, |i: int| (12 + i) as nat));
}

/// Every counter that the families name exists.
pub open spec fn in_range(list: Seq<FamilyView>) -> bool {
    forall|i: int, j: int|
        0 <= i < list.len() && 0 <= j < list[i].series.len() ==> (
        #[trigger] list[i].series[j]).index < 34
}

proof fn lemma_families_in_range()
    ensures
        in_range(decap_families()),
        in_range(encap_families()),
{
}

/// The values of a family: those of the counters of its series, in order.
pub open spec fn family_values(counters: Seq<u64>, series: Seq<BpfMetricSeries>) -> Seq<u64> {
    series.map_values(|s: BpfMetricSeries| counters[s.index as int])
}

/// The values of the counters of a family, in the order of its series.
pub fn encode_counter_family(metrics: &CEbpfMetrics, family: &BpfMetricFamily) -> (r: Vec<u64>)
    requires
        forall|j: int| 0 <= j < family.series@.len() ==> (#[trigger] family.series@[j]).index < 34,
    ensures
        r@ == family.series@.map_values(|s: BpfMetricSeries| metrics.counters()[s.index as int]),
        r@ == family_values(metrics.counters(), family.series@),
{
    let ghost want = family.series@.map_values(
        |s: BpfMetricSeries| metrics.counters()[s.index as int],
    );
    let counters = metrics.as_counter_slice();
    let mut out: Vec<u64> = Vec::new();
    let mut i: usize = 0;
    while i < family.series.len()
        invariant
            i <= family.series@.len(),
            counters@ == metrics.counters(),
            want == family.series@.map_values(
                |s: BpfMetricSeries| metrics.counters()[s.index as int],
            ),
            forall|j: int|
                0 <= j < family.series@.len() ==> (#[trigger] family.series@[j]).index < 34,
            out@ == want.take(i as int),
        decreases family.series@.len() - i,
    {
        assert(family.series@[i as int].index < 34);
        out.push(counters[family.series[i].index]);
        i += 1;
        assert(out@ =~= want.take(i as int));
    }
    assert(want.take(want.len() as int) =~= want);
    out
}

/// The number that counter `i` holds in the bytes of one CPU's counters.
pub open spec fn counter_at(bytes: Seq<u8>, i: int, order: ByteOrder) -> nat {
    word(bytes.subrange(8 * i, 8 * i + 8), order)
}

/// Counter `i`, added up over all CPUs.
pub open spec fn counter_total(values: Seq<Vec<u8>>, i: int, order: ByteOrder) -> nat
    decreases values.len(),
{
    if values.len() == 0 {
        0
    } else {
        counter_total(values.drop_last(), i, order) + counter_at(values.last()@, i, order)
    }
}

/// All of the values have the size of the counters.
pub open spec fn all_sized(values: Seq<Vec<u8>>) -> bool {
    forall|k: int| 0 <= k < values.len() ==> (#[trigger] values[k])@.len() == 272
}

/// How many values come before the first one of another size.
pub open spec fn sized_prefix(values: Seq<Vec<u8>>) -> nat
    decreases values.len(),
{
    if values.len() == 0 {
        0
    } else if sized_prefix(values.drop_last()) == values.len() - 1 && values.last()@.len() == 272 {
        values.len()
    } else {
        sized_prefix(values.drop_last())
    }
}

/// Up to the first value of another size, every counter adds up to a number
/// that fits its 64 bits.
pub open spec fn totals_fit(values: Seq<Vec<u8>>, order: ByteOrder) -> bool {
    forall|i: int|
        0 <= i < 34 ==> #[trigger] counter_total(
            values.take(sized_prefix(values) as int),
            i,
            order,
        ) <= u64::MAX
}

proof fn lemma_sized_prefix(values: Seq<Vec<u8>>)
    ensures
        sized_prefix(values) <= values.len(),
        forall|k: int| 0 <= k < sized_prefix(values) ==> (#[trigger] values[k])@.len() == 272,
        sized_prefix(values) < values.len() ==> values[sized_prefix(values) as int]@.len() != 272,
        sized_prefix(values) == values.len() <==> all_sized(values),
    decreases values.len(),
{
    if values.len() > 0 {
        let head = values.drop_last();
        lemma_sized_prefix(head);
        assert forall|k: int| 0 <= k < sized_prefix(values) implies (
        #[trigger] values[k])@.len() == 272 by {
            if k < head.len() {
                assert(head[k] == values[k]);
            }
        }
        if sized_prefix(head) < head.len() {
            assert(values[sized_prefix(head) as int] == head[sized_prefix(head) as int]);
        }
    }
}

proof fn lemma_total_step(values: Seq<Vec<u8>>, k: int, i: int, order: ByteOrder)
    requires
        0 <= k < values.len(),
    ensures
        counter_total(values.take(k + 1), i, order) == counter_total(values.take(k), i, order)
            + counter_at(values[k]@, i, order),
{
    assert(values.take(k + 1).drop_last() =~= values.take(k));
}

proof fn lemma_total_grows(values: Seq<Vec<u8>>, a: int, b: int, i: int, order: ByteOrder)
    requires
        0 <= a <= b <= values.len(),
    ensures
        counter_total(values.take(a), i, order) <= counter_total(values.take(b), i, order),
    decreases b - a,
{
    if a < b {
        lemma_total_grows(values, a, b - 1, i, order);
        lemma_total_step(values, b - 1, i, order);
    }
}

/// The map of counters, one value per CPU, of which a daemon reports its own.
#[derive(Clone, Copy, Debug, PartialEq, Eq, Structural)]
pub struct MetricsMap {
    pub set: MetricsSet,
    pub order: ByteOrder,
}

impl MetricsMap {
    /// The families that are reported.
    pub fn families(&self) -> (r: Vec<BpfMetricFamily>)
        ensures
            family_views(r@) == (match self.set {
                MetricsSet::Encap => encap_families(),
                MetricsSet::Decap => decap_families(),
            }),
            forall|i: int, j: int|
                0 <= i < r@.len() && 0 <= j < r@[i].series@.len() ==> (
                #[trigger] r@[i].series@[j]).index < 34,
    {
        let r = match self.set {
            MetricsSet::Encap => encap_metric_families(),
            MetricsSet::Decap => decap_metric_families(),
        };
        proof {
            lemma_families_in_range();
            let views = family_views(r@);
            assert forall|i: int, j: int| 0 <= i < r@.len() && 0 <= j < r@[i].series@.len() implies (
            #[trigger] r@[i].series@[j]).index < 34 by {
                assert(views[i] == r@[i]@);
                assert(views[i].series[j] == r@[i].series@[j]@);
            }
        }
        r
    }

    /// Whether every counter adds up to a number that fits its 64 bits.
    pub fn fits(&self, values: &Vec<Vec<u8>>) -> (r: bool)
        ensures
            r == totals_fit(values@, self.order),
    {
        proof {
            lemma_sized_prefix(values@);
        }
        let ghost good = sized_prefix(values@) as int;
        let mut sums: Vec<u64> = CEbpfMetrics::default().as_counter_slice();
        let mut k: usize = 0;
        while k < values.len() && values[k].len() == 272
            invariant
                k <= values@.len(),
                sums@.len() == 34,
                good == sized_prefix(values@),
                k <= good <= values@.len(),
                good < values@.len() ==> values@[good]@.len() != 272,
                forall|j: int| 0 <= j < good ==> (#[trigger] values@[j])@.len() == 272,
                forall|i: int|
                    0 <= i < 34 ==> #[trigger] sums@[i] == counter_total(
                        values@.take(k as int),
                        i,
                        self.order,
                    ),
            decreases values@.len() - k,
        {
            let cpu = match CEbpfMetrics::from_bytes(values[k].as_slice(), self.order) {
                Ok(metrics) => metrics.as_counter_slice(),
                Err(_) => {
                    return false;
                },
            };
            let mut i: usize = 0;
            while i < 34
                invariant
                    i <= 34,
                    k < good <= values@.len(),
                    good == sized_prefix(values@),
                    sums@.len() == 34,
                    cpu@.len() == 34,
                    forall|j: int|
                        0 <= j < 34 ==> #[trigger] cpu@[j] == counter_at(
                            values@[k as int]@,
                            j,
                            self.order,
                        ),
                    forall|j: int|
                        0 <= j < i ==> #[trigger] sums@[j] == counter_total(
                            values@.take(k + 1),
                            j,
                            self.order,
                        ),
                    forall|j: int|
                        i <= j < 34 ==> #[trigger] sums@[j] == counter_total(
                            values@.take(k as int),
                            j,
                            self.order,
                        ),
                decreases 34 - i,
            {
                let sum: u64 = sums[i];
                let more: u64 = cpu[i];
                proof {
                    lemma_total_step(values@, k as int, i as int, self.order);
                    lemma_total_grows(values@, k + 1, good, i as int, self.order);
                }
                if sum > u64::MAX - more {
                    assert(counter_total(values@.take(good), i as int, self.order) > u64::MAX);
                    return false;
                }
                sums.set(i, sum + more);
                i += 1;
            }
            k += 1;
        }
        proof {
            assert(k == good);
            assert forall|i: int| 0 <= i < 34 implies #[trigger] counter_total(
                values@.take(good),
                i,
                self.order,
            ) <= u64::MAX by {
                assert(sums@[i] <= u64::MAX);
            }
        }
        true
    }

    /// The counters, added up over all CPUs.
    pub fn read(&self, values: &Vec<Vec<u8>>) -> (r: Result<CEbpfMetrics, SizeMismatch>)
        requires
            totals_fit(values@, self.order),
        ensures
            r is Ok <==> all_sized(values@),
            r is Ok ==> forall|i: int|
                0 <= i < 34 ==> #[trigger] r->Ok_0.counters()[i] == counter_total(
                    values@,
                    i,
                    self.order,
                ),
    {
        proof {
            lemma_sized_prefix(values@);
        }
        let ghost good = sized_prefix(values@) as int;
        let mut total = CEbpfMetrics::default();
        let mut k: usize = 0;
        while k < values.len()
            invariant
                k <= values@.len(),
                good == sized_prefix(values@),
                k <= good <= values@.len(),
                good < values@.len() ==> values@[good]@.len() != 272,
                good == values@.len() <==> all_sized(values@),
                forall|j: int| 0 <= j < good ==> (#[trigger] values@[j])@.len() == 272,
                totals_fit(values@, self.order),
                forall|i: int|
                    0 <= i < 34 ==> #[trigger] total.counters()[i] == counter_total(
                        values@.take(k as int),
                        i,
                        self.order,
                    ),
            decreases values@.len() - k,
        {
            match CEbpfMetrics::from_bytes(values[k].as_slice(), self.order) {
                Ok(cpu_metrics) => {
                    proof {
                        assert(k < good);
                        assert forall|i: int| 0 <= i < 34 implies #[trigger] total.counters()[i]
                            + cpu_metrics.counters()[i] <= u64::MAX by {
                            lemma_total_step(values@, k as int, i, self.order);
                            lemma_total_grows(values@, k + 1, good, i, self.order);
                            assert(cpu_metrics.counters()[i] == counter_at(
                                values@[k as int]@,
                                i,
                                self.order,
                            ));
                            assert(counter_total(values@.take(good), i, self.order) <= u64::MAX);
                        }
                    }
                    let ghost before = total;
                    total.add_assign(cpu_metrics);
                    proof {
                        assert forall|i: int| 0 <= i < 34 implies #[trigger] total.counters()[i]
                            == counter_total(values@.take(k + 1), i, self.order) by {
                            lemma_total_step(values@, k as int, i, self.order);
                            assert(before.counters()[i] == counter_total(
                                values@.take(k as int),
                                i,
                                self.order,
                            ));
                            assert(cpu_metrics.counters()[i] == counter_at(
                                values@[k as int]@,
                                i,
                                self.order,
                            ));
                        }
                    }
                },
                Err(e) => {
                    return Err(e);
                },
            }
            k += 1;
        }
        assert(values@.take(values@.len() as int) =~= values@);
        Ok(total)
    }
}

/// The total of a counter over all CPUs: that of one CPU is the number that it
/// stores, and totals of parts add up.
pub proof fn law_totals_add_up(
    s: Seq<Vec<u8>>,
    t: Seq<Vec<u8>>,
    x: Vec<u8>,
    i: int,
    order: ByteOrder,
)
    ensures
        counter_total(Seq::empty(), i, order) == 0,
        counter_total(seq![x], i, order) == word(x@.subrange(8 * i, 8 * i + 8), order),
        counter_total(s + t, i, order) == counter_total(s, i, order) + counter_total(t, i, order),
    decreases t.len(),
{
    assert(seq![x].drop_last() =~= Seq::empty());
    assert(counter_total(Seq::empty(), i, order) == 0);
    assert(counter_total(seq![x], i, order) == counter_total(seq![x].drop_last(), i, order)
        + counter_at(seq![x].last()@, i, order));
    if t.len() == 0 {
        assert(s + t =~= s);
    } else {
        law_totals_add_up(s, t.drop_last(), x, i, order);
        assert((s + t).drop_last() =~= s + t.drop_last());
    }
}

/// Values are read up to the first one that has not the size of the counters: those
/// before it all have it.
pub proof fn law_sizes_are_checked(values: Seq<Vec<u8>>)
    ensures
        sized_prefix(values) <= values.len(),
        forall|k: int| 0 <= k < sized_prefix(values) ==> (#[trigger] values[k])@.len() == 272,
        sized_prefix(values) < values.len() ==> values[sized_prefix(values) as int]@.len() != 272,
        all_sized(values) <==> sized_prefix(values) == values.len(),
        all_sized(values) <==> forall|k: int|
            0 <= k < values.len() ==> (#[trigger] values[k])@.len() == 272,
    decreases values.len(),
{
    if values.len() > 0 {
        let t = values.drop_last();
        law_sizes_are_checked(t);
        assert forall|k: int| 0 <= k < sized_prefix(values) implies (
        #[trigger] values[k])@.len() == 272 by {
            if k < t.len() {
                assert(t[k]@.len() == 272);
            }
        }
        if sized_prefix(t) < t.len() {
            assert(t[sized_prefix(t) as int] == values[sized_prefix(t) as int]);
        }
    }
}

/// Where every value has the right size, the totals fit where each of the 34 does.
pub proof fn law_fitting_totals(values: Seq<Vec<u8>>, order: ByteOrder)
    requires
        forall|k: int| 0 <= k < values.len() ==> (#[trigger] values[k])@.len() == 272,
    ensures
        totals_fit(values, order) <==> forall|i: int|
            0 <= i < 34 ==> #[trigger] counter_total(values, i, order) <= 0xffff_ffff_ffff_ffff,
{
    law_sizes_are_checked(values);
    assert(all_sized(values));
    assert(values.take(values.len() as int) =~= values);
}

/// Only the codes of `EINVAL` and `ENOENT`, with either sign, mean that nothing was
/// attached.
pub proof fn law_codes_of_nothing_attached(ret: i32)
    ensures
        not_attached(ret) <==> ret * ret == 484 || ret * ret == 4,
        errno_kind(ret) is Einval <==> ret == 22,
        errno_kind(ret) is Enoent <==> ret == 2,
{
    let r = ret as int;
    assert(r * r == 484 <==> (r == 22 || r == -22)) by (nonlinear_arith);
    assert(r * r == 4 <==> (r == 2 || r == -2)) by (nonlinear_arith);
}

/// The indices of families: those of their series, in order, one family after the
/// other.
pub proof fn law_indices_of_families(s: Seq<FamilyView>, t: Seq<FamilyView>, x: FamilyView)
    ensures
        indices(Seq::empty()).len() == 0,
        indices(seq![x]).len() == x.series.len(),
        forall|j: int|
            0 <= j < x.series.len() ==> #[trigger] indices(seq![x])[j] == x.series[j].index,
        indices(s + t) == indices(s) + indices(t),
    decreases t.len(),
{
    assert(seq![x].drop_last() =~= Seq::empty());
    assert(indices(Seq::empty()) =~= Seq::empty());
    assert(indices(seq![x]) =~= x.series.map_values(|s: SeriesView| s.index));
    if t.len() == 0 {
        assert(s + t =~= s);
        assert(indices(s) + indices(t) =~= indices(s));
    } else {
        law_indices_of_families(s, t.drop_last(), x);
        assert((s + t).drop_last() =~= s + t.drop_last());
        assert(indices(s + t) =~= indices(s) + indices(t));
    }
}

/// What is seen of families is what they hold: their names and, for every series in
/// order, its counter and its labels.
pub proof fn law_families_show_their_fields(list: Seq<BpfMetricFamily>, i: int, j: int, l: int)
    requires
        0 <= i < list.len(),
        0 <= j < list[i].series@.len(),
        0 <= l < list[i].series@[j].labels@.len(),
    ensures
        family_views(list).len() == list.len(),
        family_views(list)[i].name == list[i].name@,
        family_views(list)[i].help == list[i].help@,
        family_views(list)[i].series.len() == list[i].series@.len(),
        family_views(list)[i].series[j].index == list[i].series@[j].index,
        family_views(list)[i].series[j].labels.len() == list[i].series@[j].labels@.len(),
        family_views(list)[i].series[j].labels[l].0 == list[i].series@[j].labels@[l].0@,
        family_views(list)[i].series[j].labels[l].1 == list[i].series@[j].labels@[l].1@,
{
}

/// A series without labels and one with a label.
pub proof fn law_series_with_and_without_label(index: nat, key: Seq<char>, value: Seq<char>)
    ensures
        plain_view(index).index == index,
        plain_view(index).labels.len() == 0,
        labelled_view(index, key, value).index == index,
        labelled_view(index, key, value).labels == seq![(key, value)],
{
}

/// Of all messages only one is noise.
pub proof fn law_one_message_is_noise(message: Seq<char>)
    ensures
        is_noise(message) <==> message
            == "libbpf: Kernel error message: Parent Qdisc doesn't exists"@,
{
}

/// Messages keep the level that they came with, but for debug messages, which go one
/// level down, and noise, which is logged for debugging whatever level it came with.
pub proof fn law_levels_of_messages(level: PrintLevel, message: Seq<char>)
    ensures
        message == "libbpf: Kernel error message: Parent Qdisc doesn't exists"@ ==> logged_at(
            level,
            message,
        ) is Debug,
        message != "libbpf: Kernel error message: Parent Qdisc doesn't exists"@ ==> (level is Warn
            <==> logged_at(level, message) is Warn) && (level is Info <==> logged_at(
            level,
            message,
        ) is Info) && (level is Debug <==> logged_at(level, message) is Trace),
{
}

/// Detaching has failed unless the code is zero or, with either sign, that of
/// `EINVAL` or `ENOENT`.
pub proof fn law_failed_detaching(ret: i32)
    ensures
        detach_failed(ret) <==> ret != 0 && ret * ret != 484 && ret * ret != 4,
{
    law_codes_of_nothing_attached(ret);
}

/// Every series has a value, that of its counter.
pub proof fn law_values_of_a_family(counters: Seq<u64>, series: Seq<BpfMetricSeries>)
    ensures
        family_values(counters, series).len() == series.len(),
        forall|j: int|
            0 <= j < series.len() ==> #[trigger] family_values(counters, series)[j]
                == counters[series[j].index as int],
{
}

} // verus!
