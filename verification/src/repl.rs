//! The console of a lab: what its lines mean, what it shows, and what it runs.

use vstd::prelude::*;
use vstd::string::StringExecFns;
use vstd::utf8::encode_utf8;

use crate::ns::{Ns, NsView};
use crate::text::{
    chars_of, decimal, decimal_text, joined, same, signed_decimal, signed_decimal_text, starts,
    starts_with, views, words,
};

verus! {

/// Where packet captures are kept.
pub fn pcap_dir() -> (r: &'static str)
    ensures
        r@ == "/tmp/erez-pcaps"@,
{
    "/tmp/erez-pcaps"
}

/// What is captured where nothing else is asked for.
pub fn default_pcap_filter() -> (r: &'static str)
    ensures
        r@ == "tcp or udp or ip6 proto 47 or icmp or icmp6"@,
{
    "tcp or udp or ip6 proto 47 or icmp or icmp6"
}

/// The words of a line by the rules of a POSIX shell; `None` where the line breaks
/// them.
pub uninterp spec fn shell_words(line: Seq<char>) -> Option<Seq<Seq<char>>>;

/// The views of lists of strings, where there are any.
pub open spec fn some_views(list: Option<Vec<String>>) -> Option<Seq<Seq<char>>> {
    match list {
        Some(list) => Some(views(list@)),
        None => None,
    }
}

/// `shlex::split` splits a line by the rules of a POSIX shell, and fails on an
/// open quote or a trailing backslash: a function of the line alone.
#[verifier::external_body]
fn shlex_split(line: &str) -> (r: Option<Vec<String>>)
    ensures
        some_views(r) == shell_words(line@),
{
    shlex::split(line)
}

/// The line breaks the rules of the shell.
#[derive(Clone, Copy, Debug, PartialEq, Eq, Structural)]
pub struct BadLine;

/// What a line of the console asks for.
#[derive(Debug)]
pub enum Line {
    /// Nothing.
    Empty,
    /// A command, whose arguments are given behind an empty program name.
    Args(Vec<String>),
}

/// The arguments of a command: an empty program name and the words.
pub open spec fn args_with(words: Seq<Seq<char>>) -> Seq<Seq<char>> {
    seq![Seq::<char>::empty()] + words
}

/// The arguments of a command whose line has the given words.
pub fn args_of(words: Option<Vec<String>>) -> (r: Result<Vec<String>, BadLine>)
    ensures
        match r {
            Ok(args) => words is Some && views(args@) == args_with(views(words->0@)),
            Err(_) => words is None,
        },
{
    match words {
        Some(words) => {
            let mut rest = words;
            let mut args: Vec<String> = Vec::new();
            args.push(String::new());
            args.append(&mut rest);
            assert(views(args@) =~= args_with(views(words@)));
            Ok(args)
        },
        None => Err(BadLine),
    }
}

/// What a line of the console asks for.
pub fn read_line(line: &str) -> (r: Result<Line, BadLine>)
    ensures
        match r {
            Ok(Line::Empty) => line@.len() == 0,
            Ok(Line::Args(args)) => line@.len() > 0 && shell_words(line@) is Some && views(args@)
                == args_with(shell_words(line@)->0),
            Err(_) => line@.len() > 0 && shell_words(line@) is None,
        },
{
    if line.is_empty() {
        return Ok(Line::Empty);
    }
    match args_of(shlex_split(line)) {
        Ok(args) => Ok(Line::Args(args)),
        Err(e) => Err(e),
    }
}

/// A command of the console.
#[derive(Debug)]
pub enum Command {
    /// Show info about all namespaces in the topology.
    Info,
    /// Run a command inside a namespace.
    Exec { ns: String, cmd: Vec<String> },
    /// Stream live log output from all namespaces.
    Logs,
    /// Manage packet captures across all network namespaces.
    Pcap { command: PcapCommand },
    /// Clear the terminal.
    Clear,
    /// Exit the console.
    Exit,
}

/// A command about packet captures.
#[derive(Debug)]
pub enum PcapCommand {
    /// Start packet capture in all network namespaces.
    Start { filter: String },
    /// Stop active packet captures.
    Stop,
    /// Copy packet capture files to a normal directory.
    Export { dir: String },
}

/// The views of namespaces.
pub open spec fn ns_views(list: Seq<&Ns>) -> Seq<NsView> {
    list.map_values(|ns: &Ns| ns@)
}

/// The position of the first namespace with the given display name.
pub open spec fn ns_at(list: Seq<NsView>, name: Seq<char>) -> Option<int>
    decreases list.len(),
{
    if list.len() == 0 {
        None
    } else if list[0].display_name == name {
        Some(0)
    } else {
        match ns_at(list.drop_first(), name) {
            Some(i) => Some(i + 1),
            None => None,
        }
    }
}

proof fn lemma_ns_at(list: Seq<NsView>, name: Seq<char>, n: int)
    requires
        0 <= n <= list.len(),
        forall|j: int| 0 <= j < n ==> (#[trigger] list[j]).display_name != name,
    ensures
        n == list.len() ==> ns_at(list, name) is None,
        n < list.len() && list[n].display_name == name ==> ns_at(list, name) == Some(n),
    decreases list.len(),
{
    if list.len() > 0 && n > 0 {
        let t = list.drop_first();
        assert(list[0].display_name != name);
        assert forall|j: int| 0 <= j < n - 1 implies (#[trigger] t[j]).display_name != name by {
            assert(t[j] == list[j + 1]);
        }
        lemma_ns_at(t, name, n - 1);
        if n < list.len() {
            assert(t[n - 1] == list[n]);
        }
    }
}

/// The arguments of `nsenter` that run a command in all namespaces of a process.
pub open spec fn exec_args(pid: i32, cmd: Seq<Seq<char>>) -> Seq<Seq<char>> {
    seq!["--target"@, signed_decimal(pid as int), "--all"@, "--"@] + cmd
}

fn push_copies(out: &mut Vec<String>, list: &Vec<String>)
    ensures
        views(final(out)@) == views(old(out)@) + views(list@),
{
    let ghost start = views(out@);
    let mut i: usize = 0;
    assert(views(list@).take(0) =~= Seq::empty());
    assert(start + Seq::empty() =~= start);
    while i < list.len()
        invariant
            i <= list@.len(),
            views(out@) == start + views(list@).take(i as int),
        decreases list@.len() - i,
    {
        let ghost so_far = out@;
        let copy = list[i].as_str().to_owned();
        out.push(copy);
        proof {
            assert(views(out@) =~= views(so_far).push(copy@));
            assert(start + views(list@).take(i + 1) =~= (start + views(list@).take(i as int)).push(
                views(list@)[i as int],
            ));
        }
        i += 1;
    }
    assert(views(list@).take(list@.len() as int) =~= views(list@));
}

/// The arguments of `nsenter` that run a command in the first namespace with the
/// given display name, if there is one.
pub fn dispatch_exec(namespaces: &[&Ns], ns_name: &str, cmd: &Vec<String>) -> (r: Option<
    Vec<String>,
>)
    ensures
        match r {
            Some(args) => ns_at(ns_views(namespaces@), ns_name@) is Some && views(args@)
                == exec_args(
                ns_views(namespaces@)[ns_at(ns_views(namespaces@), ns_name@)->0].pid,
                views(cmd@),
            ),
            None => ns_at(ns_views(namespaces@), ns_name@) is None,
        },
{
    let ghost list = ns_views(namespaces@);
    let mut i: usize = 0;
    while i < namespaces.len()
        invariant
            i <= namespaces@.len(),
            list == ns_views(namespaces@),
            forall|j: int| 0 <= j < i ==> (#[trigger] list[j]).display_name != ns_name@,
        decreases namespaces@.len() - i,
    {
        assert(list[i as int] == namespaces@[i as int]@);
        if same(namespaces[i].display_name(), ns_name) {
            proof {
                lemma_ns_at(list, ns_name@, i as int);
            }
            let pid = signed_decimal_text(namespaces[i].pid());
            let mut args = words(&vec!["--target", pid.as_str(), "--all", "--"]);
            let ghost head = views(args@);
            assert(head =~= seq![
                "--target"@,
                signed_decimal(list[i as int].pid as int),
                "--all"@,
                "--"@,
            ]);
            push_copies(&mut args, cmd);
            return Some(args);
        }
        i += 1;
    }
    proof {
        lemma_ns_at(list, ns_name@, list.len() as int);
    }
    None
}

/// One packet capture: where its packets and its log go, and the arguments of
/// `nsenter` that run it.
#[derive(Debug)]
pub struct Capture {
    pub pcap_path: String,
    pub log_path: String,
    pub args: Vec<String>,
}

/// A [`Capture`] over sequences.
#[verifier::ext_equal]
pub struct CaptureView {
    pub pcap_path: Seq<char>,
    pub log_path: Seq<char>,
    pub args: Seq<Seq<char>>,
}

impl View for Capture {
    type V = CaptureView;

    open spec fn view(&self) -> CaptureView {
        CaptureView {
            pcap_path: self.pcap_path@,
            log_path: self.log_path@,
            args: views(self.args@),
        }
    }
}

/// The path of a file among the packet captures. As with any path, one that is
/// absolute stands for itself.
pub open spec fn capture_path(file: Seq<char>) -> Seq<char> {
    if starts(file, "/"@) {
        file
    } else {
        "/tmp/erez-pcaps"@ + "/"@ + file
    }
}

fn path_of(file: &str) -> (r: String)
    ensures
        r@ == capture_path(file@),
{
    if starts_with(file, "/") {
        file.to_owned()
    } else {
        let mut out = joined(pcap_dir(), "/");
        out.append(file);
        out
    }
}

/// The capture in a network namespace of the packets that pass a filter. It
/// enters the network namespace only, so that its files end up with everything
/// else.
pub open spec fn capture_of(ns: NsView, filter: Seq<char>) -> CaptureView {
    let pcap_path = capture_path(ns.net_ns.display_name + ".pcap"@);
    CaptureView {
        pcap_path,
        log_path: capture_path(ns.net_ns.display_name + ".tcpdump.log"@),
        args: seq![
            "--target"@,
            signed_decimal(ns.pid as int),
            "--net"@,
            "--"@,
            "tcpdump"@,
            "-i"@,
            "any"@,
            "-nn"@,
            "-s"@,
            "0"@,
            "-U"@,
            "-w"@,
            pcap_path,
            filter,
        ],
    }
}

/// Some namespace of the list is in the same network namespace.
pub open spec fn seen(list: Seq<NsView>, ns: NsView) -> bool {
    exists|i: int|
        0 <= i < list.len() && (#[trigger] list[i]).net_ns.system_name == ns.net_ns.system_name
}

/// The captures for namespaces: one in each network namespace, in the order in
/// which they first occur.
pub open spec fn captures_of(list: Seq<NsView>, filter: Seq<char>) -> Seq<CaptureView>
    decreases list.len(),
{
    if list.len() == 0 {
        Seq::empty()
    } else {
        let head = captures_of(list.drop_last(), filter);
        if seen(list.drop_last(), list.last()) {
            head
        } else {
            head.push(capture_of(list.last(), filter))
        }
    }
}

/// Packet captures, by the PIDs of their processes.
#[derive(Debug)]
pub struct PcapState {
    pub children: Vec<u32>,
}

/// There are no capture files.
#[derive(Clone, Copy, Debug, PartialEq, Eq, Structural)]
pub struct NoCaptures;

impl PcapState {
    /// Nothing is captured.
    pub fn new() -> (r: PcapState)
        ensures
            r.children@.len() == 0,
    {
        PcapState { children: Vec::new() }
    }

    /// The captures to start; none where captures are running already.
    pub fn start(&self, namespaces: &[&Ns], filter: &str) -> (r: Option<Vec<Capture>>)
        ensures
            match r {
                Some(captures) => self.children@.len() == 0 && captures@.map_values(
                    |c: Capture| c@,
                ) == captures_of(ns_views(namespaces@), filter@),
                None => self.children@.len() > 0,
            },
    {
        if self.children.len() > 0 {
            return None;
        }
        let ghost list = ns_views(namespaces@);
        let mut out: Vec<Capture> = Vec::new();
        let mut i: usize = 0;
        proof {
            assert(list.take(0) =~= Seq::empty());
            assert(out@.map_values(|c: Capture| c@) =~= Seq::empty());
        }
        while i < namespaces.len()
            invariant
                i <= namespaces@.len(),
                list == ns_views(namespaces@),
                out@.map_values(|c: Capture| c@) == captures_of(
                    list.take(i as int),
                    filter@,
                ),
            decreases namespaces@.len() - i,
        {
            let ns = namespaces[i];
            let ghost head = list.take(i as int);
            let ghost so_far = out@;
            proof {
                assert(list[i as int] == ns@);
                assert(list.take(i + 1).drop_last() =~= head);
                assert(list.take(i + 1).last() == ns@);
            }
            let mut known: bool = false;
            let mut k: usize = 0;
            while k < i
                invariant
                    k <= i < namespaces@.len(),
                    list == ns_views(namespaces@),
                    head == list.take(i as int),
                    known == exists|j: int|
                        0 <= j < k && (#[trigger] head[j]).net_ns.system_name
                            == ns@.net_ns.system_name,
                decreases i - k,
            {
                assert(head[k as int] == namespaces@[k as int]@);
                if same(namespaces[k].net_ns().system_name(), ns.net_ns().system_name()) {
                    known = true;
                }
                k += 1;
            }
            assert(known == seen(head, ns@));
            if !known {
                let name = ns.net_ns().display_name();
                let pcap_path = path_of(joined(name, ".pcap").as_str());
                let log_path = path_of(joined(name, ".tcpdump.log").as_str());
                let pid = signed_decimal_text(ns.pid());
                let args = words(
                    &vec![
                        "--target",
                        pid.as_str(),
                        "--net",
                        "--",
                        "tcpdump",
                        "-i",
                        "any",
                        "-nn",
                        "-s",
                        "0",
                        "-U",
                        "-w",
                        pcap_path.as_str(),
                        filter,
                    ],
                );
                assert(views(args@) =~= capture_of(ns@, filter@).args);
                let capture = Capture { pcap_path, log_path, args };
                out.push(capture);
                assert(out@.map_values(|c: Capture| c@) =~= so_far.map_values(
                    |c: Capture| c@,
                ).push(capture@));
            }
            i += 1;
        }
        assert(list.take(list.len() as int) =~= list);
        Some(out)
    }

    /// A capture has been started as the process with the given PID.
    pub fn started(&mut self, pid: u32)
        ensures
            final(self).children@ == old(self).children@.push(pid),
    {
        self.children.push(pid);
    }

    /// What is said once captures have been started.
    pub fn started_text(&self, filter: &str) -> (r: String)
        ensures
            r@ == "started "@ + decimal(self.children@.len()) + " tcpdump captures in "@
                + "/tmp/erez-pcaps"@ + "; filter: "@ + filter@ + "; written to "@
                + "/tmp/erez-pcaps"@,
    {
        let mut out = joined("started ", decimal_text(self.children.len() as u64).as_str());
        out.append(" tcpdump captures in ");
        out.append(pcap_dir());
        out.append("; filter: ");
        out.append(filter);
        out.append("; written to ");
        out.append(pcap_dir());
        out
    }

    /// The processes to stop; none where nothing is captured. Nothing is captured
    /// any more.
    pub fn stop(&mut self) -> (r: Option<Vec<u32>>)
        ensures
            final(self).children@.len() == 0,
            match r {
                Some(pids) => pids@ == old(self).children@ && pids@.len() > 0,
                None => old(self).children@.len() == 0,
            },
    {
        if self.children.len() == 0 {
            return None;
        }
        let mut pids: Vec<u32> = Vec::new();
        pids.append(&mut self.children);
        Some(pids)
    }

    /// The capture files to copy, which are all that there are.
    pub fn export(&self, files: Vec<String>) -> (r: Result<Vec<String>, NoCaptures>)
        ensures
            match r {
                Ok(copied) => copied == files && files@.len() > 0,
                Err(_) => files@.len() == 0,
            },
    {
        if files.len() == 0 {
            return Err(NoCaptures);
        }
        Ok(files)
    }
}

/// What is said once capture files have been copied to a directory.
pub fn exported_text(files: &Vec<String>, dir: &str) -> (r: String)
    ensures
        r@ == "exported "@ + decimal(files@.len()) + " files to "@ + dir@,
{
    let mut out = joined("exported ", decimal_text(files.len() as u64).as_str());
    out.append(" files to ");
    out.append(dir);
    out
}

impl NoCaptures {
    /// What is said where there is nothing to copy.
    pub fn to_text(&self) -> (r: String)
        ensures
            r@ == "no capture files found in "@ + "/tmp/erez-pcaps"@,
    {
        joined("no capture files found in ", pcap_dir())
    }
}

/// `n` spaces.
pub open spec fn spaces(n: nat) -> Seq<char> {
    Seq::new(n, |i: int| ' ')
}

/// A cell, followed by spaces up to a width in characters.
pub open spec fn padded(cell: Seq<char>, width: nat) -> Seq<char> {
    if cell.len() >= width {
        cell
    } else {
        cell + spaces((width - cell.len()) as nat)
    }
}

/// The larger of two numbers.
pub open spec fn larger(a: nat, b: nat) -> nat {
    if a >= b {
        a
    } else {
        b
    }
}

/// The width of a column: the most bytes of its header and of its cells.
pub open spec fn width_of(
    headers: Seq<Seq<char>>,
    rows: Seq<Seq<Seq<char>>>,
    column: int,
) -> nat
    decreases rows.len(),
{
    if rows.len() == 0 {
        encode_utf8(headers[column]).len()
    } else {
        larger(
            width_of(headers, rows.drop_last(), column),
            encode_utf8(rows.last()[column]).len(),
        )
    }
}

/// Cells, each padded to the width of its column, with two spaces between them.
pub open spec fn row_line(cells: Seq<Seq<char>>, widths: Seq<nat>) -> Seq<char>
    decreases cells.len(),
{
    if cells.len() == 0 {
        Seq::empty()
    } else if cells.len() == 1 {
        padded(cells[0], widths[0])
    } else {
        row_line(cells.drop_last(), widths) + "  "@ + padded(
            cells.last(),
            widths[cells.len() - 1],
        )
    }
}

/// The widths of all columns.
pub open spec fn widths_of(headers: Seq<Seq<char>>, rows: Seq<Seq<Seq<char>>>) -> Seq<nat> {
    Seq::new(headers.len(), |i: int| width_of(headers, rows, i))
}

/// A table: its title and a colon, the headers, and the rows, all but the title
/// indented by two spaces.
pub open spec fn table_lines(
    title: Seq<char>,
    headers: Seq<Seq<char>>,
    rows: Seq<Seq<Seq<char>>>,
) -> Seq<Seq<char>> {
    let widths = widths_of(headers, rows);
    seq![title + ":"@, "  "@ + row_line(headers, widths)] + rows.map_values(
        |row: Seq<Seq<char>>| "  "@ + row_line(row, widths),
    )
}

/// The views of rows.
pub open spec fn rows_view(rows: Seq<Vec<String>>) -> Seq<Seq<Seq<char>>> {
    rows.map_values(|row: Vec<String>| views(row@))
}

fn pad(cell: &str, width: usize) -> (r: String)
    ensures
        r@ == padded(cell@, width as nat),
{
    let n: usize = chars_of(cell).len();
    let mut out = cell.to_owned();
    let mut i: usize = n;
    assert(out@ =~= cell@ + spaces(0));
    while i < width
        invariant
            n == cell@.len(),
            n <= i,
            i <= width || i == n,
            out@ == cell@ + spaces((i - n) as nat),
        decreases width - i,
    {
        out.push(' ');
        i += 1;
        assert(out@ =~= cell@ + spaces((i - n) as nat));
    }
    assert(out@ =~= padded(cell@, width as nat));
    out
}

fn join_cells(cells: &Vec<String>, widths: &Vec<usize>) -> (r: String)
    requires
        cells@.len() == widths@.len(),
    ensures
        r@ == row_line(views(cells@), widths@.map_values(|w: usize| w as nat)),
{
    let ghost list = views(cells@);
    let ghost ws = widths@.map_values(|w: usize| w as nat);
    let mut out = String::new();
    let mut i: usize = 0;
    assert(list.take(0) =~= Seq::empty());
    while i < cells.len()
        invariant
            i <= cells@.len() == widths@.len(),
            list == views(cells@),
            ws == widths@.map_values(|w: usize| w as nat),
            out@ == row_line(list.take(i as int), ws),
        decreases cells@.len() - i,
    {
        proof {
            assert(list.take(i + 1).drop_last() =~= list.take(i as int));
            assert(list.take(i + 1).last() == cells@[i as int]@);
        }
        if i > 0 {
            out.append("  ");
        }
        let cell = pad(cells[i].as_str(), widths[i]);
        out.append(cell.as_str());
        proof {
            if i == 0 {
                assert(list.take(1).len() == 1);
                assert(out@ =~= row_line(list.take(1), ws));
            }
        }
        i += 1;
    }
    assert(list.take(list.len() as int) =~= list);
    out
}

/// The lines of a table.
pub fn print_table(title: &str, headers: &Vec<String>, rows: &Vec<Vec<String>>) -> (r: Vec<String>)
    requires
        forall|i: int| 0 <= i < rows@.len() ==> (#[trigger] rows@[i])@.len() == headers@.len(),
    ensures
        views(r@) == table_lines(title@, views(headers@), rows_view(rows@)),
{
    let ghost hs = views(headers@);
    let ghost rv = rows_view(rows@);
    let mut widths: Vec<usize> = Vec::new();
    let mut c: usize = 0;
    while c < headers.len()
        invariant
            c <= headers@.len(),
            hs == views(headers@),
            rv == rows_view(rows@),
            forall|i: int| 0 <= i < rows@.len() ==> (#[trigger] rows@[i])@.len() == headers@.len(),
            widths@.len() == c,
            forall|j: int| 0 <= j < c ==> #[trigger] widths@[j] == width_of(hs, rv, j),
        decreases headers@.len() - c,
    {
        let mut width: usize = headers[c].as_str().as_bytes().len();
        let mut i: usize = 0;
        proof {
            assert(rv.take(0) =~= Seq::empty());
            assert(hs[c as int] == headers@[c as int]@);
        }
        while i < rows.len()
            invariant
                c < headers@.len(),
                i <= rows@.len(),
                rv == rows_view(rows@),
                forall|i: int|
                    0 <= i < rows@.len() ==> (#[trigger] rows@[i])@.len() == headers@.len(),
                width == width_of(hs, rv.take(i as int), c as int),
            decreases rows@.len() - i,
        {
            proof {
                assert(rows@[i as int]@.len() == headers@.len());
                assert(rv.take(i + 1).drop_last() =~= rv.take(i as int));
                assert(rv.take(i + 1).last() == views(rows@[i as int]@));
                assert(views(rows@[i as int]@)[c as int] == rows@[i as int]@[c as int]@);
            }
            let len: usize = rows[i][c].as_str().as_bytes().len();
            if len > width {
                width = len;
            }
            i += 1;
        }
        assert(rv.take(rv.len() as int) =~= rv);
        widths.push(width);
        c += 1;
    }
    let ghost ws = widths_of(hs, rv);
    assert(widths@.map_values(|w: usize| w as nat) =~= ws);
    let ghost want = table_lines(title@, hs, rv);
    let mut out: Vec<String> = Vec::new();
    out.push(joined(title, ":"));
    out.push(joined("  ", join_cells(headers, &widths).as_str()));
    let mut i: usize = 0;
    assert(views(out@) =~= want.take(2));
    while i < rows.len()
        invariant
            i <= rows@.len(),
            rv == rows_view(rows@),
            forall|i: int| 0 <= i < rows@.len() ==> (#[trigger] rows@[i])@.len() == headers@.len(),
            widths@.len() == headers@.len(),
            widths@.map_values(|w: usize| w as nat) == ws,
            ws == widths_of(hs, rv),
            want == table_lines(title@, hs, rv),
            views(out@) == want.take(i + 2),
        decreases rows@.len() - i,
    {
        let ghost so_far = out@;
        assert(rows@[i as int]@.len() == headers@.len());
        let line = joined("  ", join_cells(&rows[i], &widths).as_str());
        out.push(line);
        proof {
            assert(rv[i as int] == views(rows@[i as int]@));
            assert(views(out@) =~= views(so_far).push(line@));
            assert(want.take(i + 3) =~= want.take(i + 2).push(want[i + 2]));
        }
        i += 1;
    }
    assert(want.take(want.len() as int) =~= want);
    out
}

/// The row of the overview for a namespace.
pub open spec fn overview_row(ns: NsView) -> Seq<Seq<char>> {
    seq![
        ns.display_name,
        "/var/run/netns/"@ + ns.net_ns.system_name,
        signed_decimal(ns.pid as int),
    ]
}

/// The overview of namespaces.
pub open spec fn overview_lines(list: Seq<NsView>) -> Seq<Seq<char>> {
    table_lines(
        "Overview"@,
        seq!["NAME"@, "NETNS PATH"@, "PID"@],
        list.map_values(|ns: NsView| overview_row(ns)),
    )
}

/// The lines of the overview of namespaces.
pub fn print_overview(namespaces: &[&Ns]) -> (r: Vec<String>)
    ensures
        views(r@) == overview_lines(ns_views(namespaces@)),
{
    let ghost list = ns_views(namespaces@);
    let ghost want = list.map_values(|ns: NsView| overview_row(ns));
    let headers = words(&vec!["NAME", "NETNS PATH", "PID"]);
    assert(views(headers@) =~= seq!["NAME"@, "NETNS PATH"@, "PID"@]);
    let mut rows: Vec<Vec<String>> = Vec::new();
    let mut i: usize = 0;
    assert(headers@.len() == views(headers@).len());
    while i < namespaces.len()
        invariant
            i <= namespaces@.len(),
            list == ns_views(namespaces@),
            want == list.map_values(|ns: NsView| overview_row(ns)),
            rows@.len() == i,
            forall|j: int| 0 <= j < i ==> views((#[trigger] rows@[j])@) == want[j],
        decreases namespaces@.len() - i,
    {
        let ns = namespaces[i];
        assert(list[i as int] == ns@);
        let row = vec![
            ns.display_name().to_owned(),
            ns.net_ns().path(),
            signed_decimal_text(ns.pid()),
        ];
        assert(views(row@) =~= want[i as int]);
        rows.push(row);
        i += 1;
    }
    proof {
        assert(rows_view(rows@) =~= want);
        assert forall|j: int| 0 <= j < rows@.len() implies (#[trigger] rows@[j])@.len()
            == headers@.len() by {
            assert(views(rows@[j]@).len() == want[j].len());
        }
    }
    print_table("Overview", &headers, &rows)
}

/// A command of the console by name, and whether it takes a namespace.
#[derive(Debug)]
pub struct Subcommand {
    pub name: String,
    pub takes_ns: bool,
}

/// What completes to a command: its name, and before it the name with each
/// namespace where it takes one.
pub open spec fn sub_completions(
    name: Seq<char>,
    takes_ns: bool,
    ns_names: Seq<Seq<char>>,
) -> Seq<Seq<char>> {
    (if takes_ns {
        ns_names.map_values(|ns: Seq<char>| name + " "@ + ns)
    } else {
        Seq::empty()
    }).push(name)
}

/// What completes to the commands.
pub open spec fn all_sub_completions(
    subs: Seq<Subcommand>,
    ns_names: Seq<Seq<char>>,
) -> Seq<Seq<char>>
    decreases subs.len(),
{
    if subs.len() == 0 {
        Seq::empty()
    } else {
        all_sub_completions(subs.drop_last(), ns_names) + sub_completions(
            subs.last().name@,
            subs.last().takes_ns,
            ns_names,
        )
    }
}

/// What completes to the commands about packet captures.
pub open spec fn pcap_completions() -> Seq<Seq<char>> {
    seq![
        "pcap "@ + "start"@,
        "pcap "@ + "stop"@,
        "pcap "@ + "merge"@,
        "pcap "@ + "dump"@,
        "pcap "@ + "files"@,
        "pcap "@ + "clear"@,
        "pcap "@ + "export"@,
    ]
}

/// The display names of namespaces.
pub open spec fn display_names(list: Seq<NsView>) -> Seq<Seq<char>> {
    list.map_values(|ns: NsView| ns.display_name)
}

/// What the console completes to.
pub fn build_completions(subs: &Vec<Subcommand>, namespaces: &[&Ns]) -> (r: Vec<String>)
    ensures
        views(r@) == all_sub_completions(subs@, display_names(ns_views(namespaces@)))
            + pcap_completions(),
{
    let ghost names = display_names(ns_views(namespaces@));
    let mut out: Vec<String> = Vec::new();
    let mut i: usize = 0;
    proof {
        assert(subs@.take(0) =~= Seq::empty());
        assert(views(out@) =~= Seq::empty());
    }
    while i < subs.len()
        invariant
            i <= subs@.len(),
            names == display_names(ns_views(namespaces@)),
            views(out@) == all_sub_completions(subs@.take(i as int), names),
        decreases subs@.len() - i,
    {
        let sub = &subs[i];
        let ghost start = views(out@);
        let ghost with_ns = names.map_values(|ns: Seq<char>| sub.name@ + " "@ + ns);
        proof {
            assert(subs@.take(i + 1).drop_last() =~= subs@.take(i as int));
            assert(start + with_ns.take(0) =~= start);
        }
        if sub.takes_ns {
            let mut k: usize = 0;
            while k < namespaces.len()
                invariant
                    k <= namespaces@.len(),
                    names == display_names(ns_views(namespaces@)),
                    with_ns == names.map_values(|ns: Seq<char>| sub.name@ + " "@ + ns),
                    views(out@) == start + with_ns.take(k as int),
                decreases namespaces@.len() - k,
            {
                let ghost so_far = out@;
                let mut text = joined(sub.name.as_str(), " ");
                text.append(namespaces[k].display_name());
                out.push(text);
                proof {
                    assert(ns_views(namespaces@)[k as int] == namespaces@[k as int]@);
                    assert(views(out@) =~= views(so_far).push(text@));
                    assert(start + with_ns.take(k + 1) =~= (start + with_ns.take(k as int)).push(
                        with_ns[k as int],
                    ));
                }
                k += 1;
            }
            assert(with_ns.take(with_ns.len() as int) =~= with_ns);
        }
        let ghost so_far = out@;
        let name = sub.name.as_str().to_owned();
        out.push(name);
        proof {
            assert(views(out@) =~= views(so_far).push(name@));
            assert(views(out@) =~= start + sub_completions(sub.name@, sub.takes_ns, names));
        }
        i += 1;
    }
    let ghost head = views(out@);
    assert(subs@.take(subs@.len() as int) =~= subs@);
    let pcap = vec![
        joined("pcap ", "start"),
        joined("pcap ", "stop"),
        joined("pcap ", "merge"),
        joined("pcap ", "dump"),
        joined("pcap ", "files"),
        joined("pcap ", "clear"),
        joined("pcap ", "export"),
    ];
    assert(views(pcap@) =~= pcap_completions());
    push_copies(&mut out, &pcap);
    out
}

/// How a search of the history is shown: nothing where there is nothing to search
/// for, else the term in brackets, marked where it was not found.
pub fn history_search_text(failing: bool, term: &str) -> (r: String)
    ensures
        r@ == (if failing {
            "(failing: "@ + term@ + ") "@
        } else if term@.len() == 0 {
            Seq::empty()
        } else {
            "("@ + term@ + ") "@
        }),
{
    if failing {
        let mut out = joined("(failing: ", term);
        out.append(") ");
        return out;
    }
    if term.is_empty() {
        return String::new();
    }
    let mut out = joined("(", term);
    out.append(") ");
    out
}

/// Whether a key ends the stream of log output: only `q` does.
pub fn ends_log_stream(key: u8) -> (r: bool)
    ensures
        r == (key == 'q' as u8),
{
    key == 113
}

/// The first namespace of each network namespace, in the order of the list.
pub open spec fn entrants(list: Seq<NsView>) -> Seq<NsView>
    decreases list.len(),
{
    if list.len() == 0 {
        Seq::empty()
    } else if seen(list.drop_last(), list.last()) {
        entrants(list.drop_last())
    } else {
        entrants(list.drop_last()).push(list.last())
    }
}

proof fn lemma_captures_of_entrants(list: Seq<NsView>, filter: Seq<char>)
    ensures
        captures_of(list, filter) == entrants(list).map_values(
            |ns: NsView| capture_of(ns, filter),
        ),
    decreases list.len(),
{
    if list.len() > 0 {
        lemma_captures_of_entrants(list.drop_last(), filter);
    }
    assert(captures_of(list, filter) =~= entrants(list).map_values(
        |ns: NsView| capture_of(ns, filter),
    ));
}

/// What shares a network namespace with some of a list still does once the list is
/// longer.
proof fn lemma_seen_push(list: Seq<NsView>, last: NsView, ns: NsView)
    ensures
        seen(list, ns) ==> seen(list.push(last), ns),
        seen(list.push(last), last),
{
    let longer = list.push(last);
    if seen(list, ns) {
        let x = choose|x: int|
            0 <= x < list.len() && (#[trigger] list[x]).net_ns.system_name
                == ns.net_ns.system_name;
        assert(longer[x] == list[x]);
    }
    assert(longer[list.len() as int] == last);
}

proof fn lemma_entrants_are_listed(list: Seq<NsView>)
    ensures
        forall|i: int| 0 <= i < entrants(list).len() ==> seen(list, #[trigger] entrants(list)[i]),
    decreases list.len(),
{
    if list.len() > 0 {
        let t = list.drop_last();
        lemma_entrants_are_listed(t);
        assert(list =~= t.push(list.last()));
        assert forall|i: int| 0 <= i < entrants(list).len() implies seen(
            list,
            #[trigger] entrants(list)[i],
        ) by {
            if i < entrants(t).len() {
                assert(entrants(list)[i] == entrants(t)[i]);
            }
            lemma_seen_push(t, list.last(), entrants(list)[i]);
        }
    }
}

proof fn lemma_entrants_cover(list: Seq<NsView>)
    ensures
        forall|i: int| 0 <= i < list.len() ==> seen(entrants(list), #[trigger] list[i]),
    decreases list.len(),
{
    if list.len() > 0 {
        let t = list.drop_last();
        let last = list.last();
        lemma_entrants_cover(t);
        assert forall|i: int| 0 <= i < list.len() implies seen(
            entrants(list),
            #[trigger] list[i],
        ) by {
            lemma_seen_push(entrants(t), last, list[i]);
            if i < t.len() {
                assert(t[i] == list[i]);
                assert(seen(entrants(t), t[i]));
            } else if seen(t, last) {
                let k = choose|k: int|
                    0 <= k < t.len() && (#[trigger] t[k]).net_ns.system_name
                        == last.net_ns.system_name;
                assert(seen(entrants(t), t[k]));
            }
        }
    }
}

proof fn lemma_entrants_differ(list: Seq<NsView>)
    ensures
        forall|i: int, j: int|
            0 <= i < j < entrants(list).len() ==> (#[trigger] entrants(list)[i]).net_ns.system_name
                != (#[trigger] entrants(list)[j]).net_ns.system_name,
    decreases list.len(),
{
    if list.len() > 0 {
        let t = list.drop_last();
        let e = entrants(list);
        let et = entrants(t);
        lemma_entrants_differ(t);
        lemma_entrants_are_listed(t);
        assert forall|i: int, j: int| 0 <= i < j < e.len() implies (
        #[trigger] e[i]).net_ns.system_name != (#[trigger] e[j]).net_ns.system_name by {
            assert(e[i] == et[i]);
            if j < et.len() {
                assert(e[j] == et[j]);
            } else {
                assert(seen(t, et[i]));
                let x = choose|x: int|
                    0 <= x < t.len() && (#[trigger] t[x]).net_ns.system_name
                        == et[i].net_ns.system_name;
                assert(t[x].net_ns.system_name != list.last().net_ns.system_name);
            }
        }
    }
}

/// Packets are captured once in every network namespace: the captures are those
/// in namespaces no two of which share a network namespace, and every namespace
/// shares one with some of them.
pub proof fn law_captured_once(list: Seq<NsView>, filter: Seq<char>)
    ensures
        captures_of(list, filter) == entrants(list).map_values(
            |ns: NsView| capture_of(ns, filter),
        ),
        forall|i: int, j: int|
            0 <= i < j < entrants(list).len() ==> (#[trigger] entrants(list)[i]).net_ns.system_name
                != (#[trigger] entrants(list)[j]).net_ns.system_name,
        forall|i: int| 0 <= i < list.len() ==> seen(entrants(list), #[trigger] list[i]),
        forall|i: int| 0 <= i < entrants(list).len() ==> seen(list, #[trigger] entrants(list)[i]),
{
    lemma_captures_of_entrants(list, filter);
    lemma_entrants_differ(list);
    lemma_entrants_cover(list);
    lemma_entrants_are_listed(list);
}

/// A character takes at least one byte.
proof fn lemma_bytes_cover_chars(s: Seq<char>)
    ensures
        s.len() <= encode_utf8(s).len(),
    decreases s.len(),
{
    if s.len() > 0 {
        lemma_bytes_cover_chars(s.drop_first());
    }
}

proof fn lemma_width_covers(
    headers: Seq<Seq<char>>,
    rows: Seq<Seq<Seq<char>>>,
    column: int,
    i: int,
)
    requires
        0 <= i < rows.len(),
    ensures
        rows[i][column].len() <= width_of(headers, rows, column),
        headers[column].len() <= width_of(headers, rows, column),
    decreases rows.len(),
{
    let t = rows.drop_last();
    lemma_header_fits(headers, rows, column);
    lemma_bytes_cover_chars(rows.last()[column]);
    if i < t.len() {
        lemma_width_covers(headers, t, column, i);
        assert(t[i] == rows[i]);
    }
}

proof fn lemma_header_fits(headers: Seq<Seq<char>>, rows: Seq<Seq<Seq<char>>>, column: int)
    ensures
        headers[column].len() <= width_of(headers, rows, column),
    decreases rows.len(),
{
    lemma_bytes_cover_chars(headers[column]);
    if rows.len() > 0 {
        lemma_header_fits(headers, rows.drop_last(), column);
    }
}

/// The length of a line whose cells fit their columns.
pub open spec fn line_len(widths: Seq<nat>, n: nat) -> nat
    decreases n,
{
    if n == 0 {
        0
    } else if n == 1 {
        widths[0]
    } else {
        line_len(widths, (n - 1) as nat) + 2 + widths[n - 1]
    }
}

proof fn lemma_row_len(cells: Seq<Seq<char>>, widths: Seq<nat>)
    requires
        forall|c: int| 0 <= c < cells.len() ==> (#[trigger] cells[c]).len() <= widths[c],
    ensures
        row_line(cells, widths).len() == line_len(widths, cells.len()),
    decreases cells.len(),
{
    if cells.len() > 1 {
        let t = cells.drop_last();
        assert forall|c: int| 0 <= c < t.len() implies (#[trigger] t[c]).len() <= widths[c] by {
            assert(t[c] == cells[c]);
        }
        lemma_row_len(t, widths);
        assert(cells[cells.len() - 1].len() <= widths[cells.len() - 1]);
        reveal_strlit("  ");
    } else if cells.len() == 1 {
        assert(cells[0].len() <= widths[0]);
    }
}

/// The columns of a table are aligned: all its rows are as long as its header.
pub proof fn law_table_is_aligned(
    title: Seq<char>,
    headers: Seq<Seq<char>>,
    rows: Seq<Seq<Seq<char>>>,
    i: int,
)
    requires
        0 <= i < rows.len(),
        rows[i].len() == headers.len(),
    ensures
        table_lines(title, headers, rows)[2 + i].len() == table_lines(title, headers, rows)[1].len(),
{
    let widths = widths_of(headers, rows);
    assert forall|c: int| 0 <= c < headers.len() implies (#[trigger] headers[c]).len()
        <= widths[c] by {
        lemma_header_fits(headers, rows, c);
    }
    assert forall|c: int| 0 <= c < rows[i].len() implies (#[trigger] rows[i][c]).len()
        <= widths[c] by {
        lemma_width_covers(headers, rows, c, i);
    }
    lemma_row_len(headers, widths);
    lemma_row_len(rows[i], widths);
}

/// What the line editor reports.
#[derive(Debug)]
pub enum Signal {
    /// A line was entered.
    Success(String),
    CtrlC,
    CtrlD,
    Failed,
}

/// What the console does next.
#[derive(Debug)]
pub enum Step {
    /// Read another line.
    Prompt,
    /// Tell what went wrong, and read another line.
    Report,
    /// Read the arguments of a command, and run it.
    Parse(Vec<String>),
    /// Leave.
    Quit,
    /// Leave, since a line could not be split into words.
    Abort(BadLine),
}

/// What the console does about what the line editor reports.
pub fn run(signal: &Signal) -> (r: Step)
    ensures
        match signal {
            Signal::Success(line) => if line@.len() == 0 {
                r is Prompt
            } else {
                match shell_words(line@) {
                    Some(words) => r is Parse && views(r->Parse_0@) == args_with(words),
                    None => r == Step::Abort(BadLine),
                }
            },
            Signal::CtrlC => r is Prompt,
            Signal::CtrlD => r is Quit,
            Signal::Failed => r is Report,
        },
{
    match signal {
        Signal::Success(line) => match read_line(line.as_str()) {
            Ok(Line::Empty) => Step::Prompt,
            Ok(Line::Args(args)) => Step::Parse(args),
            Err(e) => Step::Abort(e),
        },
        Signal::CtrlC => Step::Prompt,
        Signal::CtrlD => Step::Quit,
        Signal::Failed => Step::Report,
    }
}

/// What is handed to the parser: an empty word for the name of the program, and the
/// words of the line behind it.
pub proof fn law_words_behind_the_program(words: Seq<Seq<char>>)
    ensures
        args_with(words).len() == words.len() + 1,
        args_with(words)[0].len() == 0,
        forall|i: int| 0 <= i < words.len() ==> args_with(words)[i + 1] == #[trigger] words[i],
{
}

/// A namespace is found by its display name wherever it stands, the first of several;
/// one that nobody is called by is not found.
pub proof fn law_first_of_the_display_name(list: Seq<NsView>, name: Seq<char>, i: int)
    requires
        0 <= i <= list.len(),
        forall|k: int| 0 <= k < i ==> (#[trigger] list[k]).display_name != name,
        i < list.len() ==> list[i].display_name == name,
    ensures
        i < list.len() ==> ns_at(list, name) == Some(i),
        i == list.len() ==> ns_at(list, name) is None,
    decreases i,
{
    if i > 0 {
        let rest = list.drop_first();
        assert(list[0].display_name != name);
        assert forall|k: int| 0 <= k < i - 1 implies (#[trigger] rest[k]).display_name != name by {
            assert(rest[k] == list[k + 1]);
        }
        law_first_of_the_display_name(rest, name, i - 1);
    }
}

/// A command runs in all namespaces of the process, with its words as given.
pub proof fn law_command_is_run_as_given(pid: i32, cmd: Seq<Seq<char>>)
    ensures
        exec_args(pid, cmd).len() == cmd.len() + 4,
        exec_args(pid, cmd)[0] == "--target"@,
        exec_args(pid, cmd)[1] == signed_decimal(pid as int),
        exec_args(pid, cmd)[2] == "--all"@,
        exec_args(pid, cmd)[3] == "--"@,
        forall|i: int| 0 <= i < cmd.len() ==> exec_args(pid, cmd)[i + 4] == #[trigger] cmd[i],
{
}

/// A file that is given by its full path is taken as it is, any other is looked for
/// where captures are kept.
pub proof fn law_capture_paths(file: Seq<char>)
    ensures
        file.len() > 0 && file[0] == '/' ==> capture_path(file) == file,
        file.len() == 0 || file[0] != '/' ==> capture_path(file) == "/tmp/erez-pcaps"@ + seq!['/']
            + file,
{
    reveal_strlit("/");
    assert("/"@ =~= seq!['/']);
    if file.len() > 0 {
        assert(file.take(1)[0] == file[0]);
        if file[0] == '/' {
            assert(file.take(1) =~= "/"@);
        }
    }
}

/// A capture is that of one network namespace: its files are named after it, and the
/// filter comes last among the arguments, behind the file.
pub proof fn law_capture_parts(ns: NsView, filter: Seq<char>)
    ensures
        capture_of(ns, filter).pcap_path == capture_path(ns.net_ns.display_name + ".pcap"@),
        capture_of(ns, filter).log_path == capture_path(ns.net_ns.display_name + ".tcpdump.log"@),
        capture_of(ns, filter).args.len() == 14,
        capture_of(ns, filter).args[1] == signed_decimal(ns.pid as int),
        capture_of(ns, filter).args[12] == capture_path(ns.net_ns.display_name + ".pcap"@),
        capture_of(ns, filter).args[13] == filter,
{
}

/// A namespace is captured unless an earlier one shares its network: then its capture
/// follows those of the earlier ones.
pub proof fn law_each_network_is_captured(list: Seq<NsView>, ns: NsView, filter: Seq<char>)
    ensures
        captures_of(Seq::empty(), filter).len() == 0,
        (forall|i: int|
            0 <= i < list.len() ==> (#[trigger] list[i]).net_ns.system_name != ns.net_ns.system_name)
            ==> captures_of(list.push(ns), filter) == captures_of(list, filter).push(
            capture_of(ns, filter),
        ),
        (exists|i: int|
            0 <= i < list.len() && (#[trigger] list[i]).net_ns.system_name == ns.net_ns.system_name)
            ==> captures_of(list.push(ns), filter) == captures_of(list, filter),
{
    assert(list.push(ns).drop_last() =~= list);
    assert(list.push(ns).last() == ns);
}

/// A cell is filled up with spaces behind it to the width of its column, and never
/// cut.
pub proof fn law_padding(cell: Seq<char>, width: nat)
    ensures
        cell.len() >= width ==> padded(cell, width) == cell,
        cell.len() < width ==> padded(cell, width).len() == width,
        forall|i: int| 0 <= i < cell.len() ==> #[trigger] padded(cell, width)[i] == cell[i],
        forall|i: int|
            cell.len() <= i < padded(cell, width).len() ==> #[trigger] padded(cell, width)[i]
                == ' ',
{
}

/// The width of a column: that of its widest cell, its header among them.
pub proof fn law_column_widths(
    headers: Seq<Seq<char>>,
    rows: Seq<Seq<Seq<char>>>,
    column: int,
)
    ensures
        width_of(headers, rows, column) >= encode_utf8(headers[column]).len(),
        forall|i: int|
            0 <= i < rows.len() ==> width_of(headers, rows, column) >= encode_utf8(
                #[trigger] rows[i][column],
            ).len(),
        width_of(headers, rows, column) == encode_utf8(headers[column]).len() || exists|i: int|
            0 <= i < rows.len() && width_of(headers, rows, column) == encode_utf8(
                #[trigger] rows[i][column],
            ).len(),
    decreases rows.len(),
{
    if rows.len() > 0 {
        let t = rows.drop_last();
        law_column_widths(headers, t, column);
        assert forall|i: int| 0 <= i < rows.len() implies width_of(headers, rows, column)
            >= encode_utf8(#[trigger] rows[i][column]).len() by {
            if i < t.len() {
                assert(t[i][column] == rows[i][column]);
            }
        }
        let last = rows.len() - 1;
        if width_of(headers, rows, column) == width_of(headers, t, column) {
            if width_of(headers, t, column) != encode_utf8(headers[column]).len() {
                let i = choose|i: int|
                    0 <= i < t.len() && width_of(headers, t, column) == encode_utf8(
                        #[trigger] t[i][column],
                    ).len();
                assert(rows[i][column] == t[i][column]);
            }
        } else {
            assert(width_of(headers, rows, column) == encode_utf8(rows[last][column]).len());
        }
    }
}

/// A line of a table: its cells, each filled up to the width of its column, with two
/// spaces between them.
pub proof fn law_line_of_cells(cells: Seq<Seq<char>>, cell: Seq<char>, widths: Seq<nat>)
    requires
        cells.len() > 0,
    ensures
        row_line(Seq::empty(), widths).len() == 0,
        row_line(seq![cell], widths) == padded(cell, widths[0]),
        row_line(cells.push(cell), widths) == row_line(cells, widths) + seq![' ', ' '] + padded(
            cell,
            widths[cells.len() as int],
        ),
{
    reveal_strlit("  ");
    assert("  "@ =~= seq![' ', ' ']);
    assert(cells.push(cell).drop_last() =~= cells);
}

/// A table: its title and a colon, its headers, and a line for every row, in order,
/// all of them indented and in columns that are as wide as their widest cell.
pub proof fn law_lines_of_a_table(
    title: Seq<char>,
    headers: Seq<Seq<char>>,
    rows: Seq<Seq<Seq<char>>>,
)
    ensures
        table_lines(title, headers, rows).len() == rows.len() + 2,
        table_lines(title, headers, rows)[0] == title + seq![':'],
        table_lines(title, headers, rows)[1] == seq![' ', ' '] + row_line(
            headers,
            widths_of(headers, rows),
        ),
        forall|i: int|
            0 <= i < rows.len() ==> table_lines(title, headers, rows)[i + 2] == seq![' ', ' ']
                + row_line(#[trigger] rows[i], widths_of(headers, rows)),
        widths_of(headers, rows).len() == headers.len(),
        forall|i: int|
            0 <= i < headers.len() ==> #[trigger] widths_of(headers, rows)[i] == width_of(
                headers,
                rows,
                i,
            ),
{
    reveal_strlit("  ");
    reveal_strlit(":");
    assert("  "@ =~= seq![' ', ' ']);
    assert(":"@ =~= seq![':']);
}

/// The overview has a row for every namespace: its name, where its network is kept,
/// and its process.
pub proof fn law_overview_of_namespaces(list: Seq<NsView>, ns: NsView)
    ensures
        overview_row(ns).len() == 3,
        overview_row(ns)[0] == ns.display_name,
        overview_row(ns)[1] == "/var/run/netns/"@ + ns.net_ns.system_name,
        overview_row(ns)[2] == signed_decimal(ns.pid as int),
        overview_lines(list).len() == list.len() + 2,
        display_names(list).len() == list.len(),
        forall|i: int|
            0 <= i < list.len() ==> #[trigger] display_names(list)[i] == list[i].display_name,
{
}

/// What a subcommand is completed to: itself, and where it takes a namespace, itself
/// with each of them, ahead of itself alone; and the completions of several follow
/// one another.
pub proof fn law_completions_of_subcommands(
    s: Seq<Subcommand>,
    t: Seq<Subcommand>,
    x: Subcommand,
    ns_names: Seq<Seq<char>>,
)
    ensures
        all_sub_completions(Seq::empty(), ns_names).len() == 0,
        all_sub_completions(seq![x], ns_names).len() == 1 + if x.takes_ns {
            ns_names.len()
        } else {
            0
        },
        all_sub_completions(seq![x], ns_names).last() == x.name@,
        x.takes_ns ==> forall|i: int|
            0 <= i < ns_names.len() ==> all_sub_completions(seq![x], ns_names)[i] == x.name@ + seq![
                ' ',
            ] + #[trigger] ns_names[i],
        all_sub_completions(s + t, ns_names) == all_sub_completions(s, ns_names)
            + all_sub_completions(t, ns_names),
    decreases t.len(),
{
    reveal_strlit(" ");
    assert(" "@ =~= seq![' ']);
    assert(seq![x].drop_last() =~= Seq::empty());
    assert(seq![x].last() == x);
    assert(all_sub_completions(Seq::empty(), ns_names) =~= Seq::empty());
    assert(all_sub_completions(seq![x], ns_names) =~= sub_completions(
        x.name@,
        x.takes_ns,
        ns_names,
    ));
    if t.len() == 0 {
        assert(s + t =~= s);
        assert(all_sub_completions(s, ns_names) + all_sub_completions(t, ns_names)
            =~= all_sub_completions(s, ns_names));
    } else {
        law_completions_of_subcommands(s, t.drop_last(), x, ns_names);
        assert((s + t).drop_last() =~= s + t.drop_last());
        assert(all_sub_completions(s + t, ns_names) =~= all_sub_completions(s, ns_names)
            + all_sub_completions(t, ns_names));
    }
}

/// What is seen of captures, namespaces and rows is what they hold.
pub proof fn law_console_shows_what_it_holds(
    capture: Capture,
    list: Seq<&Ns>,
    rows: Seq<Vec<String>>,
    words: Vec<String>,
)
    ensures
        capture@.pcap_path == capture.pcap_path@,
        capture@.log_path == capture.log_path@,
        capture@.args == views(capture.args@),
        ns_views(list).len() == list.len(),
        forall|i: int| 0 <= i < list.len() ==> #[trigger] ns_views(list)[i] == list[i]@,
        rows_view(rows).len() == rows.len(),
        forall|i: int| 0 <= i < rows.len() ==> #[trigger] rows_view(rows)[i] == views(rows[i]@),
        some_views(Some(words)) == Some(views(words@)),
        some_views(None) is None,
{
}

/// Every subcommand for captures is completed to.
pub proof fn law_capture_completions()
    ensures
        pcap_completions() == seq!["start"@, "stop"@, "merge"@, "dump"@, "files"@, "clear"@, "export"@].map_values(
            |sub: Seq<char>| "pcap "@ + sub,
        ),
{
    assert(pcap_completions() =~= seq![
        "start"@,
        "stop"@,
        "merge"@,
        "dump"@,
        "files"@,
        "clear"@,
        "export"@,
    ].map_values(|sub: Seq<char>| "pcap "@ + sub));
}

} // verus!
