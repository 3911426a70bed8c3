use erez::config::{
    default_bgp_port, default_config_path, default_log_level, default_metrics_listen_addr,
};
use erez::eventually::{
    assert_eventually, failure_text, panic_info, remaining, Attempt, Location, Verdict,
};
use erez::interface::{Interface, LookupError, NetworkInterface};
use erez::net::{IpAddr, Ipv4Addr};
use erez::ns::{NetNs, Ns};
use erez::repl::{
    args_of, build_completions, default_pcap_filter, dispatch_exec, ends_log_stream,
    exported_text, history_search_text, pcap_dir, print_overview, print_table, read_line, run, BadLine, Line,
    NoCaptures, PcapState, Signal, Step, Subcommand,
};
use erez::text::{decimal_text, first_word_of, hex4_text, lines_of, signed_decimal_text, trimmed};
use erez::traffic_gen::{
    flow_step, rate_fits, stagger_fits, stagger_ns, update_rate, FlowAction, FlowEvent,
    CHUNK_SIZE_BYTES, INITIAL_RATE, MAX_DURATION_NS,
};

fn strings(list: &[&str]) -> Vec<String> {
    list.iter().map(|s| s.to_string()).collect()
}

fn args(line: &str) -> Option<Vec<String>> {
    match run(&Signal::Success(line.to_string())) {
        Step::Parse(args) => Some(args),
        _ => None,
    }
}

#[test]
fn lines_are_split_like_in_a_shell() {
    assert_eq!(args("exec edge ping -c 1").unwrap(), strings(&["", "exec", "edge", "ping", "-c", "1"]));
    assert_eq!(
        args("pcap start --filter 'tcp or udp'").unwrap(),
        strings(&["", "pcap", "start", "--filter", "tcp or udp"])
    );
    assert_eq!(args("  ").unwrap(), strings(&[""]));
}

#[test]
fn empty_lines_ask_for_nothing() {
    assert!(matches!(read_line(""), Ok(Line::Empty)));
    assert!(matches!(run(&Signal::Success(String::new())), Step::Prompt));
}

#[test]
fn bad_lines_end_the_console() {
    assert_eq!(read_line("echo 'open").unwrap_err(), BadLine);
    assert!(matches!(run(&Signal::Success("a \"b".to_string())), Step::Abort(BadLine)));
    assert_eq!(args_of(None), Err(BadLine));
    assert_eq!(args_of(Some(strings(&["a"]))), Ok(strings(&["", "a"])));
}

#[test]
fn keys_steer_the_console() {
    assert!(matches!(run(&Signal::CtrlC), Step::Prompt));
    assert!(matches!(run(&Signal::CtrlD), Step::Quit));
    assert!(matches!(run(&Signal::Failed), Step::Report));
    assert!(ends_log_stream(b'q'));
    assert!(!ends_log_stream(b'Q') && !ends_log_stream(3));
}

fn lab() -> Vec<Ns> {
    vec![
        Ns::builder(NetNs::with_id("edge", 1)).mount("bird", &[]).build(10),
        Ns::builder(NetNs::with_id("metal", 2)).build(11),
        Ns::builder(NetNs::with_id("metal", 2)).mount("bird", &[]).build(12),
        Ns::builder(NetNs::with_id("metal", 3)).build(-13),
    ]
}

#[test]
fn commands_run_in_the_first_namespace_of_the_name() {
    let lab = lab();
    let refs: Vec<&Ns> = lab.iter().collect();
    assert_eq!(
        dispatch_exec(&refs, "metal", &strings(&["ping", "-c1"])).unwrap(),
        strings(&["--target", "11", "--all", "--", "ping", "-c1"])
    );
    assert!(dispatch_exec(&refs, "edge", &vec![]).is_none());
    assert!(dispatch_exec(&refs, "edge/bird", &vec![]).is_some());
}

#[test]
fn packets_are_captured_once_per_network_namespace() {
    let lab = lab();
    let refs: Vec<&Ns> = lab.iter().collect();
    let captures = PcapState::new().start(&refs, "tcp or udp").unwrap();
    let files: Vec<&str> = captures.iter().map(|c| c.pcap_path.as_str()).collect();
    assert_eq!(
        files,
        vec![
            "/tmp/erez-pcaps/edge.pcap",
            "/tmp/erez-pcaps/metal.pcap",
            "/tmp/erez-pcaps/metal.pcap"
        ]
    );
    assert_eq!(captures[0].log_path, "/tmp/erez-pcaps/edge.tcpdump.log");
    assert_eq!(
        captures[1].args.join("|"),
        "--target|11|--net|--|tcpdump|-i|any|-nn|-s|0|-U|-w|/tmp/erez-pcaps/metal.pcap|tcp or udp"
    );
    assert_eq!(captures[2].args[1], "-13");
}

#[test]
fn absolute_capture_paths_stand_for_themselves() {
    let ns = Ns::builder(NetNs::with_id("/x", 1)).build(7);
    let captures = PcapState::new().start(&[&ns], "").unwrap();
    assert_eq!(captures[0].pcap_path, "/x.pcap");
    assert_eq!(captures[0].log_path, "/x.tcpdump.log");
    assert_eq!(captures[0].args[12], "/x.pcap");
    assert_eq!(captures[0].args[13], "");
}

#[test]
fn captures_are_started_and_stopped() {
    let lab = lab();
    let refs: Vec<&Ns> = lab.iter().collect();
    let mut state = PcapState::new();
    assert!(state.stop().is_none());
    state.started(100);
    state.started(101);
    assert!(state.start(&refs, "tcp").is_none());
    assert_eq!(
        state.started_text("tcp"),
        "started 2 tcpdump captures in /tmp/erez-pcaps; filter: tcp; written to /tmp/erez-pcaps"
    );
    assert_eq!(state.stop(), Some(vec![100, 101]));
    assert!(state.stop().is_none());
    assert!(state.start(&refs, "tcp").is_some());
    assert_eq!(state.export(vec![]), Err(NoCaptures));
    assert_eq!(state.export(strings(&["a"])), Ok(strings(&["a"])));
    assert_eq!(exported_text(&strings(&["a", "b"]), "out"), "exported 2 files to out");
    assert_eq!(NoCaptures.to_text(), "no capture files found in /tmp/erez-pcaps");
    assert_eq!(pcap_dir(), "/tmp/erez-pcaps");
    assert_eq!(default_pcap_filter(), "tcp or udp or ip6 proto 47 or icmp or icmp6");
}

#[test]
fn tables_are_aligned() {
    let lines = print_table(
        "Things",
        &strings(&["A", "LONG", "C"]),
        &vec![strings(&["xyz", "1", ""]), strings(&["é", "22222", "c"])],
    );
    assert_eq!(
        lines,
        strings(&["Things:", "  A    LONG   C", "  xyz  1       ", "  é    22222  c"])
    );
    let lengths: Vec<usize> = lines[1..].iter().map(|l| l.chars().count()).collect();
    assert_eq!(lengths, vec![lengths[0]; 3]);
    assert_eq!(print_table("None", &vec![], &vec![]), strings(&["None:", "  "]));
}

#[test]
fn namespaces_are_listed() {
    let lab = lab();
    let refs: Vec<&Ns> = lab[..2].iter().collect();
    assert_eq!(
        print_overview(&refs),
        strings(&[
            "Overview:",
            "  NAME       NETNS PATH                      PID",
            "  edge/bird  /var/run/netns/erez_edge_0001   10 ",
            "  metal      /var/run/netns/erez_metal_0002  11 ",
        ])
    );
}

#[test]
fn commands_are_completed() {
    let lab = lab();
    let refs: Vec<&Ns> = lab[..2].iter().collect();
    let subs = vec![
        Subcommand { name: "info".to_string(), takes_ns: false },
        Subcommand { name: "exec".to_string(), takes_ns: true },
    ];
    assert_eq!(
        build_completions(&subs, &refs),
        strings(&[
            "info",
            "exec edge/bird",
            "exec metal",
            "exec",
            "pcap start",
            "pcap stop",
            "pcap merge",
            "pcap dump",
            "pcap files",
            "pcap clear",
            "pcap export",
        ])
    );
}

#[test]
fn history_searches_are_shown() {
    assert_eq!(history_search_text(false, ""), "");
    assert_eq!(history_search_text(false, "ex"), "(ex) ");
    assert_eq!(history_search_text(true, "ex"), "(failing: ex) ");
    assert_eq!(history_search_text(true, ""), "(failing: ) ");
}

#[test]
fn interfaces_are_looked_up() {
    let iface = |name: &str, index| NetworkInterface { name: name.to_string(), index };
    let list = vec![iface("lo", 1), iface("eth0", 7), iface("eth0", 8), iface("zero", 0), iface("big", 0x8000_0000)];
    let found = Interface::lookup(&list, "eth0").unwrap();
    assert_eq!((found.name.as_str(), found.index), ("eth0", 7));
    assert_eq!(Interface::lookup(&list, "eth1").unwrap_err(), LookupError::NotFound);
    assert_eq!(Interface::lookup(&list, "zero").unwrap_err(), LookupError::ZeroIndex);
    assert_eq!(
        Interface::lookup(&list, "big").unwrap_err(),
        LookupError::IndexTooLarge(0x8000_0000)
    );
    let last = vec![iface("max", 0x7fff_ffff)];
    assert_eq!(Interface::lookup(&last, "max").unwrap().index, i32::MAX);
}

#[test]
fn configuration_has_defaults() {
    assert_eq!(default_bgp_port(), 179);
    assert_eq!(default_log_level(), "INFO");
    assert_eq!(default_config_path(), "config.toml");
    let addr = default_metrics_listen_addr();
    assert_eq!(addr.ip, IpAddr::V4(Ipv4Addr { bits: 0x7f00_0001 }));
    assert_eq!(addr.port, 9100);
}

#[test]
fn rates_are_converted() {
    let update = update_rate(250);
    assert_eq!((update.bytes_per_sec, update.reported_kbps), (INITIAL_RATE, 250));
    assert_eq!(update_rate(1).bytes_per_sec, 125);
    assert_eq!(CHUNK_SIZE_BYTES as u64, update_rate(50).bytes_per_sec);
    assert!(rate_fits(u64::MAX / 1000));
    assert!(!rate_fits(u64::MAX / 1000 + 1));
}

#[test]
fn flows_are_staggered() {
    let five_seconds: u128 = 5_000_000_000;
    let starts: Vec<u128> = (0..4).map(|i| stagger_ns(five_seconds, i, 4)).collect();
    assert_eq!(starts, vec![0, 1_250_000_000, 2_500_000_000, 3_750_000_000]);
    assert_eq!(stagger_ns(10, 2, 3), 6);
    assert!(stagger_fits(five_seconds, u32::MAX));
    assert!(stagger_fits(MAX_DURATION_NS, 1));
    assert!(!stagger_fits(MAX_DURATION_NS, 2));
    assert!(stagger_fits(u128::MAX, 0));
    let max = std::time::Duration::MAX;
    assert_eq!(max.as_nanos(), MAX_DURATION_NS);
}

#[test]
fn flows_go_on_until_cancelled() {
    assert_eq!(flow_step(FlowEvent::Due { cancelled: false }), FlowAction::Connect);
    assert_eq!(flow_step(FlowEvent::Due { cancelled: true }), FlowAction::Stop);
    assert_eq!(flow_step(FlowEvent::Connected), FlowAction::Send);
    assert_eq!(flow_step(FlowEvent::ConnectFailed), FlowAction::Wait { millis: 1000 });
}

#[test]
fn assertions_are_tried_again() {
    let info = || Some("at x".to_string());
    assert!(matches!(assert_eventually(Attempt::Passed, 9, 5, info()), Verdict::Holds));
    assert!(matches!(
        assert_eventually(Attempt::Panicked, 4, 5, info()),
        Verdict::Retry { millis: 100 }
    ));
    assert!(matches!(assert_eventually(Attempt::Panicked, 5, 5, info()), Verdict::Fails(t) if t == "at x"));
    assert!(matches!(assert_eventually(Attempt::TimedOut, 0, 5, None), Verdict::Fails(t) if t.is_empty()));
    assert_eq!((remaining(3, 5), remaining(5, 5), remaining(7, 5)), (2, 0, 0));
}

#[test]
fn failures_are_explained() {
    let location = Location { file: "a.rs".to_string(), line: 10, column: 3 };
    assert_eq!(panic_info(Some(location), "boom"), "at a.rs:10:3\nboom");
    assert_eq!(panic_info(None, "boom"), "boom");
    assert_eq!(failure_text("5s", None, ""), "assertion not met within 5s");
    assert_eq!(
        failure_text("5s", Some("why"), "at a.rs:1:2\nboom"),
        "assertion not met within 5s: why\nat a.rs:1:2\nboom"
    );
}

#[test]
fn numbers_as_text() {
    assert_eq!(decimal_text(0), "0");
    assert_eq!(decimal_text(u64::MAX), u64::MAX.to_string());
    assert_eq!(signed_decimal_text(i32::MIN), i32::MIN.to_string());
    assert_eq!(hex4_text(0), "0000");
    assert_eq!(hex4_text(0xbeef), "beef");
}

#[test]
fn text_is_cut_up_as_usual() {
    for text in ["", "a", "a\n", "a\r\nb", "\n\n", "a\rb\n", "x\r", "\r\n\r"] {
        assert_eq!(lines_of(text), text.lines().collect::<Vec<_>>());
        assert_eq!(trimmed(text), text.trim());
    }
    for text in ["", " ", "\u{3000}a b", "a\u{2003}b", "\u{200b}x", "\u{85}é \u{1680}"] {
        assert_eq!(trimmed(text), text.trim());
        assert_eq!(first_word_of(text).as_deref(), text.split_whitespace().next());
    }
}
