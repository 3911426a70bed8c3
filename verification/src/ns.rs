//! Linux namespaces: how they are named, what is set up in them, and what comes
//! out of the commands that run there.

use vstd::prelude::*;
use vstd::string::StringExecFns;

use crate::text::{
    hex4, hex4_text, hex_char, joined, starts, starts_with, trim, trimmed, views,
};

verus! {

/// What the names of all network namespaces start with.
pub open spec fn net_ns_prefix() -> Seq<char> {
    "erez"@ + "_"@
}

/// The name under which the system knows a network namespace: the prefix, the
/// display name and four hexadecimal digits that tell namespaces with one display
/// name apart.
pub open spec fn system_name_of(name: Seq<char>, id: u16) -> Seq<char> {
    net_ns_prefix() + name + "_"@ + hex4(id)
}

/// A [`NetNs`] over sequences.
#[verifier::ext_equal]
pub struct NetNsView {
    pub display_name: Seq<char>,
    pub system_name: Seq<char>,
}

/// A network namespace.
#[derive(Debug)]
pub struct NetNs {
    display_name: String,
    system_name: String,
}

impl View for NetNs {
    type V = NetNsView;

    closed spec fn view(&self) -> NetNsView {
        NetNsView { display_name: self.display_name@, system_name: self.system_name@ }
    }
}

impl Clone for NetNs {
    fn clone(&self) -> (r: NetNs)
        ensures
            r@ == self@,
    {
        NetNs {
            display_name: self.display_name.as_str().to_owned(),
            system_name: self.system_name.as_str().to_owned(),
        }
    }
}

/// `random` on the generator that `rand::rng` hands out: any number. Nothing is
/// said of which.
#[verifier::external_body]
pub(crate) fn random_id() -> (r: u16) {
    rand::Rng::random(&mut rand::rng())
}

impl NetNs {
    /// A network namespace with a display name, told apart by a random number.
    pub fn new(name: &str) -> (r: NetNs)
        ensures
            r@.display_name == name@,
            exists|id: u16| r@.system_name == #[trigger] system_name_of(name@, id),
    {
        NetNs::with_id(name, random_id())
    }

    /// A network namespace with a display name, told apart by the given number.
    pub fn with_id(name: &str, id: u16) -> (r: NetNs)
        ensures
            r@ == (NetNsView { display_name: name@, system_name: system_name_of(name@, id) }),
    {
        let mut system_name = joined("erez", "_");
        system_name.append(name);
        system_name.append("_");
        system_name.append(hex4_text(id).as_str());
        NetNs { display_name: name.to_owned(), system_name }
    }

    /// The name that people use.
    pub fn display_name(&self) -> (r: &str)
        ensures
            r@ == self@.display_name,
    {
        self.display_name.as_str()
    }

    /// The name that the system uses.
    pub fn system_name(&self) -> (r: &str)
        ensures
            r@ == self@.system_name,
    {
        self.system_name.as_str()
    }

    /// Where the system keeps the namespace.
    pub fn path(&self) -> (r: String)
        ensures
            r@ == "/var/run/netns/"@ + self@.system_name,
    {
        joined("/var/run/netns/", self.system_name.as_str())
    }
}

proof fn lemma_hex_char_injective(a: int, b: int)
    requires
        0 <= a < 16,
        0 <= b < 16,
        hex_char(a) == hex_char(b),
    ensures
        a == b,
{
}

/// Namespaces with one display name that were given different numbers have
/// different system names.
pub proof fn law_system_names_differ(name: Seq<char>, a: u16, b: u16)
    requires
        a != b,
    ensures
        system_name_of(name, a) != system_name_of(name, b),
{
    let n = (net_ns_prefix() + name + "_"@).len() as int;
    let (s, t) = (system_name_of(name, a), system_name_of(name, b));
    if s == t {
        assert(s.skip(n) =~= hex4(a));
        assert(t.skip(n) =~= hex4(b));
        assert forall|i: int| 0 <= i < 4 implies hex4(a)[i] == hex4(b)[i] by {}
        lemma_hex_char_injective(a as int / 4096, b as int / 4096);
        lemma_hex_char_injective(a as int / 256 % 16, b as int / 256 % 16);
        lemma_hex_char_injective(a as int / 16 % 16, b as int / 16 % 16);
        lemma_hex_char_injective(a as int % 16, b as int % 16);
    }
}

/// The name is that of a network namespace of ours.
pub open spec fn is_ours(name: Seq<char>) -> bool {
    starts(name, net_ns_prefix())
}

/// Every network namespace of ours is known by its name, so that none is left
/// behind when they are cleaned up.
pub proof fn law_names_are_ours(name: Seq<char>, id: u16)
    ensures
        is_ours(system_name_of(name, id)),
{
    let p = net_ns_prefix();
    assert(system_name_of(name, id).take(p.len() as int) =~= p);
}

/// The names of network namespaces that are cleaned up, of those that there are.
pub open spec fn ours(names: Seq<Seq<char>>) -> Seq<Seq<char>> {
    names.filter(|n: Seq<char>| is_ours(n))
}

/// Picks the network namespaces that are cleaned up.
pub fn cleanup_netns(names: &Vec<String>) -> (r: Vec<String>)
    ensures
        views(r@) == ours(views(names@)),
{
    let ghost all = views(names@);
    let ghost pred = |n: Seq<char>| is_ours(n);
    let prefix = joined("erez", "_");
    let mut out: Vec<String> = Vec::new();
    let mut i: usize = 0;
    proof {
        assert(all.take(0) =~= Seq::empty());
        reveal(Seq::filter);
        assert(views(out@) =~= all.take(0).filter(pred));
    }
    while i < names.len()
        invariant
            i <= names@.len(),
            all == views(names@),
            pred == (|n: Seq<char>| is_ours(n)),
            prefix@ == net_ns_prefix(),
            views(out@) == all.take(i as int).filter(pred),
        decreases names@.len() - i,
    {
        let ghost so_far = out@;
        proof {
            reveal(Seq::filter);
            assert(all[i as int] == names@[i as int]@);
            assert(all.take(i + 1).drop_last() =~= all.take(i as int));
            assert(all.take(i + 1).last() == all[i as int]);
        }
        if starts_with(names[i].as_str(), prefix.as_str()) {
            let name = names[i].as_str().to_owned();
            out.push(name);
            assert(views(out@) =~= views(so_far).push(name@));
        }
        i += 1;
    }
    assert(all.take(all.len() as int) =~= all);
    out
}

/// What an executor in a set of namespaces is built from.
#[must_use]
#[derive(Debug)]
pub struct NsBuilder {
    net_ns: NetNs,
    mount_name: Option<String>,
    mount_dirs: Vec<String>,
}

/// An [`NsBuilder`] over sequences.
#[verifier::ext_equal]
pub struct NsBuilderView {
    pub net_ns: NetNsView,
    pub mount_name: Option<Seq<char>>,
    pub mount_dirs: Seq<Seq<char>>,
}

impl View for NsBuilder {
    type V = NsBuilderView;

    closed spec fn view(&self) -> NsBuilderView {
        NsBuilderView {
            net_ns: self.net_ns@,
            mount_name: match self.mount_name {
                Some(name) => Some(name@),
                None => None,
            },
            mount_dirs: views(self.mount_dirs@),
        }
    }
}

/// The display name of an executor: that of its network namespace, followed by
/// that of its mount namespace where it has one (e.g. "edge/bird").
pub open spec fn executor_name(builder: NsBuilderView) -> Seq<char> {
    match builder.mount_name {
        Some(name) => builder.net_ns.display_name + "/"@ + name,
        None => builder.net_ns.display_name,
    }
}

/// What is set up, in this order, before an executor takes tasks.
#[derive(Debug)]
pub enum SetupStep {
    /// Join the network namespace that is kept at the path.
    EnterNetNs { path: String },
    /// Bring up the loopback interface, which is down in a new namespace.
    EnableLoopback,
    /// Stop waiting for duplicates of IPv6 addresses.
    DisableDad,
    /// Enter a mount namespace with empty file systems over the directories.
    MountTmpfs { dirs: Vec<String> },
    /// Prefix what is written to standard error with the name.
    RedirectStderr { prefix: String },
}

/// A [`SetupStep`] over sequences.
pub enum StepView {
    EnterNetNs(Seq<char>),
    EnableLoopback,
    DisableDad,
    MountTmpfs(Seq<Seq<char>>),
    RedirectStderr(Seq<char>),
}

impl View for SetupStep {
    type V = StepView;

    open spec fn view(&self) -> StepView {
        match self {
            SetupStep::EnterNetNs { path } => StepView::EnterNetNs(path@),
            SetupStep::EnableLoopback => StepView::EnableLoopback,
            SetupStep::DisableDad => StepView::DisableDad,
            SetupStep::MountTmpfs { dirs } => StepView::MountTmpfs(views(dirs@)),
            SetupStep::RedirectStderr { prefix } => StepView::RedirectStderr(prefix@),
        }
    }
}

/// What is set up for an executor; nothing is mounted where no directory is
/// named.
pub open spec fn setup_of(builder: NsBuilderView) -> Seq<StepView> {
    seq![
        StepView::EnterNetNs("/var/run/netns/"@ + builder.net_ns.system_name),
        StepView::EnableLoopback,
        StepView::DisableDad,
    ] + (if builder.mount_dirs.len() > 0 {
        seq![StepView::MountTmpfs(builder.mount_dirs)]
    } else {
        Seq::empty()
    }) + seq![StepView::RedirectStderr(executor_name(builder))]
}

/// What an executor is built from once its mount namespace has a name and empty
/// file systems lie over further directories too.
pub open spec fn mounting(
    builder: NsBuilderView,
    name: Seq<char>,
    dirs: Seq<Seq<char>>,
) -> NsBuilderView {
    NsBuilderView {
        net_ns: builder.net_ns,
        mount_name: Some(name),
        mount_dirs: builder.mount_dirs + dirs,
    }
}

/// What an executor in a network namespace alone is built from.
pub open spec fn plain_builder(net_ns: NetNsView) -> NsBuilderView {
    NsBuilderView { net_ns, mount_name: None, mount_dirs: seq!["/tmp"@] }
}

/// An executor has a scratch space of its own in `/tmp`, whatever else is mounted:
/// it is among the directories over which empty file systems are mounted.
pub proof fn law_scratch_space_is_private(
    net_ns: NetNsView,
    name: Seq<char>,
    dirs: Seq<Seq<char>>,
)
    ensures
        setup_of(plain_builder(net_ns))[3] == StepView::MountTmpfs(seq!["/tmp"@]),
        setup_of(mounting(plain_builder(net_ns), name, dirs))[3] == StepView::MountTmpfs(
            seq!["/tmp"@] + dirs,
        ),
        (seq!["/tmp"@] + dirs).contains("/tmp"@),
{
    assert((seq!["/tmp"@] + dirs)[0] == "/tmp"@);
}

fn copy_strings(list: &Vec<String>) -> (r: Vec<String>)
    ensures
        views(r@) == views(list@),
{
    let mut out: Vec<String> = Vec::new();
    let mut i: usize = 0;
    while i < list.len()
        invariant
            i <= list@.len(),
            out@.len() == i,
            forall|j: int| 0 <= j < i ==> (#[trigger] out@[j])@ == list@[j]@,
        decreases list@.len() - i,
    {
        out.push(list[i].as_str().to_owned());
        i += 1;
    }
    assert(views(out@) =~= views(list@));
    out
}

impl NsBuilder {
    /// Call the mount namespace by a name, with empty file systems over the
    /// directories besides those named so far.
    pub fn mount(self, name: &str, dirs: &[&str]) -> (r: NsBuilder)
        ensures
            r@ == mounting(self@, name@, dirs@.map_values(|d: &str| d@)),
    {
        let ghost before = views(self.mount_dirs@);
        let ghost added = dirs@.map_values(|d: &str| d@);
        let mut mount_dirs: Vec<String> = self.mount_dirs;
        let mut i: usize = 0;
        assert(before + added.take(0) =~= before);
        while i < dirs.len()
            invariant
                i <= dirs@.len(),
                added == dirs@.map_values(|d: &str| d@),
                views(mount_dirs@) == before + added.take(i as int),
            decreases dirs@.len() - i,
        {
            let ghost so_far = mount_dirs@;
            let dir = dirs[i].to_owned();
            mount_dirs.push(dir);
            i += 1;
            assert(views(mount_dirs@) =~= views(so_far).push(dir@));
            assert(before + added.take(i as int) =~= (before + added.take(i - 1)).push(dir@));
        }
        assert(added.take(added.len() as int) =~= added);
        NsBuilder { net_ns: self.net_ns, mount_name: Some(name.to_owned()), mount_dirs }
    }

    /// The display name of the executor.
    pub fn display_name(&self) -> (r: String)
        ensures
            r@ == executor_name(self@),
    {
        match &self.mount_name {
            Some(name) => {
                let mut out = joined(self.net_ns.display_name(), "/");
                out.append(name.as_str());
                out
            },
            None => self.net_ns.display_name().to_owned(),
        }
    }

    /// The name of the thread that runs the tasks of the executor.
    pub fn thread_name(&self) -> (r: String)
        ensures
            r@ == "ns_"@ + executor_name(self@),
    {
        joined("ns_", self.display_name().as_str())
    }

    /// What is set up before the executor takes tasks.
    pub fn setup(&self) -> (r: Vec<SetupStep>)
        ensures
            r@.map_values(|s: SetupStep| s@) == setup_of(self@),
    {
        let mut out: Vec<SetupStep> = Vec::new();
        out.push(SetupStep::EnterNetNs { path: self.net_ns.path() });
        out.push(SetupStep::EnableLoopback);
        out.push(SetupStep::DisableDad);
        if self.mount_dirs.len() > 0 {
            out.push(SetupStep::MountTmpfs { dirs: copy_strings(&self.mount_dirs) });
        }
        out.push(SetupStep::RedirectStderr { prefix: self.display_name() });
        assert(out@.map_values(|s: SetupStep| s@) =~= setup_of(self@));
        out
    }

    /// The executor, once its thread reports its PID.
    pub fn build(self, pid: i32) -> (r: Ns)
        ensures
            r@ == (NsView { display_name: executor_name(self@), pid, net_ns: self@.net_ns }),
    {
        let display_name = self.display_name();
        Ns { display_name, pid, net_ns: self.net_ns }
    }
}

/// An executor of tasks in a set of namespaces.
#[derive(Debug)]
pub struct Ns {
    display_name: String,
    pid: i32,
    net_ns: NetNs,
}

/// An [`Ns`] over sequences.
#[verifier::ext_equal]
pub struct NsView {
    pub display_name: Seq<char>,
    pub pid: i32,
    pub net_ns: NetNsView,
}

impl View for Ns {
    type V = NsView;

    closed spec fn view(&self) -> NsView {
        NsView { display_name: self.display_name@, pid: self.pid, net_ns: self.net_ns@ }
    }
}

impl Clone for Ns {
    fn clone(&self) -> (r: Ns)
        ensures
            r@ == self@,
    {
        Ns {
            display_name: self.display_name.as_str().to_owned(),
            pid: self.pid,
            net_ns: self.net_ns.clone(),
        }
    }
}

impl Ns {
    /// An executor in a network namespace. It has a scratch space of its own,
    /// whatever else is mounted.
    pub fn builder(net_ns: NetNs) -> (r: NsBuilder)
        ensures
            r@ == plain_builder(net_ns@),
    {
        let r = NsBuilder { net_ns, mount_name: None, mount_dirs: vec!["/tmp".to_owned()] };
        assert(r@.mount_dirs =~= seq!["/tmp"@]);
        r
    }

    /// The name that people use.
    pub fn display_name(&self) -> (r: &str)
        ensures
            r@ == self@.display_name,
    {
        self.display_name.as_str()
    }

    /// The PID of the thread that runs the tasks.
    pub fn pid(&self) -> (r: i32)
        ensures
            r == self@.pid,
    {
        self.pid
    }

    /// The network namespace.
    pub fn net_ns(&self) -> (r: &NetNs)
        ensures
            r@ == self@.net_ns,
    {
        &self.net_ns
    }
}

/// A command failed: the code with which it exited, and what it said.
#[derive(Debug)]
pub struct ExecError {
    pub code: i32,
    pub stderr: String,
}

/// What a command that has run is worth: what it wrote where it succeeded, else
/// its code and what it said, without the white space around it.
pub fn exec_checked(success: bool, code: Option<i32>, stdout: Vec<u8>, stderr: &str) -> (r: Result<
    Vec<u8>,
    ExecError,
>)
    requires
        !success ==> code is Some,
    ensures
        match r {
            Ok(out) => success && out@ == stdout@,
            Err(e) => !success && Some(e.code) == code && e.stderr@ == trim(stderr@),
        },
{
    if !success {
        if let Some(code) = code {
            return Err(ExecError { code, stderr: trimmed(stderr) });
        }
    }
    Ok(stdout)
}

/// Whether what is written to standard error is kept from the terminal.
#[derive(Clone, Copy, Debug, PartialEq, Eq, Structural)]
pub struct StderrGate {
    pub suppressed: bool,
}

/// Keeps what is written to standard error from the terminal, or lets it pass.
pub fn set_stderr_suppressed(gate: &mut StderrGate, suppressed: bool)
    ensures
        final(gate).suppressed == suppressed,
{
    gate.suppressed = suppressed;
}

impl StderrGate {
    /// What reaches the terminal of a line that was written in a namespace: the
    /// line behind the name of the namespace, or nothing.
    pub fn pipe_with_prefix(&self, prefix: &str, line: &str) -> (r: Option<String>)
        ensures
            match r {
                Some(out) => !self.suppressed && out@ == "["@ + prefix@ + "] "@ + line@,
                None => self.suppressed,
            },
    {
        if self.suppressed {
            return None;
        }
        let mut out = joined("[", prefix);
        out.append("] ");
        out.append(line);
        Some(out)
    }
}

/// The name of a namespace for the system: the mark of this project, the name that
/// people use and its number, four hexadecimal digits, with underscores between.
pub proof fn law_system_name_parts(name: Seq<char>, id: u16)
    ensures
        system_name_of(name, id) == seq!['e', 'r', 'e', 'z', '_'] + name + seq!['_'] + hex4(id),
{
    reveal_strlit("erez");
    reveal_strlit("_");
    assert(net_ns_prefix() =~= seq!['e', 'r', 'e', 'z', '_']);
    assert("_"@ =~= seq!['_']);
}

/// What is cleaned up: exactly the names that begin with the mark, in their order.
pub proof fn law_only_ours_are_cleaned_up(
    s: Seq<Seq<char>>,
    t: Seq<Seq<char>>,
    name: Seq<char>,
)
    ensures
        is_ours(name) <==> name.len() >= 5 && name[0] == 'e' && name[1] == 'r' && name[2] == 'e'
            && name[3] == 'z' && name[4] == '_',
        ours(Seq::empty()).len() == 0,
        name.len() >= 5 && name.take(5) == seq!['e', 'r', 'e', 'z', '_'] ==> ours(seq![name])
            == seq![name],
        !(name.len() >= 5 && name.take(5) == seq!['e', 'r', 'e', 'z', '_']) ==> ours(
            seq![name],
        ).len() == 0,
        ours(s + t) == ours(s) + ours(t),
    decreases t.len(),
{
    reveal_strlit("erez");
    reveal_strlit("_");
    let mark = seq!['e', 'r', 'e', 'z', '_'];
    assert(net_ns_prefix() =~= mark);
    if name.len() >= 5 && name[0] == 'e' && name[1] == 'r' && name[2] == 'e' && name[3] == 'z'
        && name[4] == '_' {
        assert(name.take(5) =~= mark);
    }
    if is_ours(name) {
        assert(name.take(5)[0] == 'e' && name.take(5)[1] == 'r' && name.take(5)[2] == 'e'
            && name.take(5)[3] == 'z' && name.take(5)[4] == '_');
    }
    reveal(Seq::filter);
    let pred = |n: Seq<char>| is_ours(n);
    assert(seq![name].drop_last() =~= Seq::empty());
    assert(ours(Seq::empty()) =~= Seq::empty());
    assert(ours(seq![name]) =~= if is_ours(name) {
        seq![name]
    } else {
        Seq::empty()
    });
    if t.len() == 0 {
        assert(s + t =~= s);
        assert(ours(s) + ours(t) =~= ours(s));
    } else {
        law_only_ours_are_cleaned_up(s, t.drop_last(), name);
        assert((s + t).drop_last() =~= s + t.drop_last());
        assert(ours(s + t) =~= ours(s) + ours(t));
    }
}

/// What an executor is called: by its network namespace, and behind a slash by its
/// mount namespace where that has a name.
pub proof fn law_executor_names(builder: NsBuilderView)
    ensures
        builder.mount_name is None ==> executor_name(builder) == builder.net_ns.display_name,
        builder.mount_name is Some ==> executor_name(builder) == builder.net_ns.display_name
            + seq!['/'] + builder.mount_name->0,
{
    reveal_strlit("/");
    assert("/"@ =~= seq!['/']);
}

/// What is set up for an executor, in order: its network namespace, the loopback
/// interface, addresses without a wait, the directories where there are any, and
/// its name ahead of what it writes.
pub proof fn law_setup_in_order(builder: NsBuilderView)
    ensures
        setup_of(builder)[0] == StepView::EnterNetNs(
            "/var/run/netns/"@ + builder.net_ns.system_name,
        ),
        setup_of(builder)[1] is EnableLoopback,
        setup_of(builder)[2] is DisableDad,
        builder.mount_dirs.len() > 0 ==> setup_of(builder).len() == 5 && setup_of(builder)[3]
            == StepView::MountTmpfs(builder.mount_dirs),
        builder.mount_dirs.len() == 0 ==> setup_of(builder).len() == 4,
        setup_of(builder).last() == StepView::RedirectStderr(executor_name(builder)),
{
}

/// Mounting gives the mount namespace its name and adds to the directories; the
/// network namespace stays the same.
pub proof fn law_mounting_adds(
    builder: NsBuilderView,
    net_ns: NetNsView,
    name: Seq<char>,
    dirs: Seq<Seq<char>>,
)
    ensures
        mounting(builder, name, dirs).net_ns == builder.net_ns,
        mounting(builder, name, dirs).mount_name == Some(name),
        mounting(builder, name, dirs).mount_dirs.len() == builder.mount_dirs.len() + dirs.len(),
        forall|i: int|
            0 <= i < builder.mount_dirs.len() ==> #[trigger] mounting(
                builder,
                name,
                dirs,
            ).mount_dirs[i] == builder.mount_dirs[i],
        forall|i: int|
            0 <= i < dirs.len() ==> mounting(builder, name, dirs).mount_dirs[builder.mount_dirs.len()
                + i] == #[trigger] dirs[i],
        plain_builder(net_ns).net_ns == net_ns,
        plain_builder(net_ns).mount_name is None,
        plain_builder(net_ns).mount_dirs == seq!["/tmp"@],
{
}

/// What is seen of a step of the setup is what it says.
pub proof fn law_steps_show_their_fields(text: String, dirs: Vec<String>)
    ensures
        (SetupStep::EnterNetNs { path: text })@ == StepView::EnterNetNs(text@),
        SetupStep::EnableLoopback@ == StepView::EnableLoopback,
        SetupStep::DisableDad@ == StepView::DisableDad,
        (SetupStep::MountTmpfs { dirs })@ == StepView::MountTmpfs(views(dirs@)),
        (SetupStep::RedirectStderr { prefix: text })@ == StepView::RedirectStderr(text@),
{
}

} // verus!
