//! The SFTP download worker: its messages, the directory listings it reports,
//! and the decisions it takes between the steps of the SSH/SFTP session.
//!
//! The network work itself (connecting, authenticating, reading directories
//! and files) is done by the caller; [`worker_step`] says, for each outcome,
//! what the worker reports to the user interface and what it does next.
use vstd::prelude::*;
use crate::number::{decimal_seq, push_decimal};
use crate::text::{chars_of, push_str, string_from_chars, trim_end_char, trim_end_seq};

verus! {

// ── messages ─────────────────────────────────────────────────────────────────

/// One entry of a remote directory listing.
#[derive(Debug, Clone)]
pub struct SftpEntry {
    pub name: String,
    pub full_path: String,
    pub is_dir: bool,
    pub size: u64,
}

/// A request from the user interface to the worker.
pub enum SftpCmd {
    ListDir(String),
    Download { path: String, name: String },
    Disconnect,
}

/// A report from the worker to the user interface.
pub enum SftpEvent {
    Connected { home_dir: String },
    DirListing { path: String, entries: Vec<SftpEntry> },
    FileData { name: String, data: Vec<u8> },
    Busy(bool),
    Error(String),
}

// ── directory listings ───────────────────────────────────────────────────────

/// A directory entry as the server reports it: its file name, whether it is a
/// directory, and its size if the server gave one.
pub struct RawDirEntry {
    pub name: String,
    pub is_dir: bool,
    pub size: Option<u64>,
}

/// An entry as plain values: name, full path, is a directory, size.
pub type EntryView = (Seq<char>, Seq<char>, bool, u64);

impl SftpEntry {
    pub open spec fn view(self) -> EntryView {
        (self.name@, self.full_path@, self.is_dir, self.size)
    }
}

/// `"."` and `".."`, which a listing leaves out.
pub open spec fn is_dot_name(name: Seq<char>) -> bool {
    name == seq!['.'] || name == seq!['.', '.']
}

/// The path of `name` inside directory `dir`: the directory without trailing
/// slashes, one slash, the name.
pub open spec fn child_path(dir: Seq<char>, name: Seq<char>) -> Seq<char> {
    trim_end_seq(dir, '/') + seq!['/'] + name
}

/// The listing entry of a raw entry of directory `dir` (a missing size is 0).
pub open spec fn entry_of(dir: Seq<char>, r: RawDirEntry) -> EntryView {
    (
        r.name@,
        child_path(dir, r.name@),
        r.is_dir,
        match r.size {
            Some(s) => s,
            None => 0,
        },
    )
}

/// The entries of `raw` other than `"."` and `".."`, in the server's order.
pub open spec fn listed_entries(dir: Seq<char>, raw: Seq<RawDirEntry>) -> Seq<EntryView>
    decreases raw.len(),
{
    if raw.len() == 0 {
        Seq::empty()
    } else {
        let p = listed_entries(dir, raw.drop_last());
        if is_dot_name(raw.last().name@) {
            p
        } else {
            p.push(entry_of(dir, raw.last()))
        }
    }
}

/// `a` comes before `b` in the order of chars (code points), a proper prefix
/// first: the order of `String`'s `Ord`.
pub open spec fn name_lt(a: Seq<char>, b: Seq<char>) -> bool
    decreases a.len(),
{
    if a.len() == 0 {
        b.len() > 0
    } else if b.len() == 0 {
        false
    } else if a[0] != b[0] {
        (a[0] as u32) < (b[0] as u32)
    } else {
        name_lt(a.drop_first(), b.drop_first())
    }
}

/// `a` is listed before `b`: directories first, then by name.
pub open spec fn listed_before(a: EntryView, b: EntryView) -> bool {
    (a.2 && !b.2) || (a.2 == b.2 && name_lt(a.0, b.0))
}

/// The position at which `x` goes into the ordered `s`: before the first entry
/// that it precedes, so after all entries it does not precede.
pub open spec fn insert_position(s: Seq<EntryView>, x: EntryView) -> int
    decreases s.len(),
{
    if s.len() == 0 {
        0
    } else if listed_before(x, s[0]) {
        0
    } else {
        1 + insert_position(s.drop_first(), x)
    }
}

/// The entries `s` in listing order, entries that compare equal keeping their
/// order (a stable sort, as `sort_by` is).
pub open spec fn listing_order(s: Seq<EntryView>) -> Seq<EntryView>
    decreases s.len(),
{
    if s.len() == 0 {
        Seq::empty()
    } else {
        let p = listing_order(s.drop_last());
        p.insert(insert_position(p, s.last()), s.last())
    }
}

/// The listing of directory `dir` that the worker reports.
pub open spec fn dir_listing_spec(dir: Seq<char>, raw: Seq<RawDirEntry>) -> Seq<EntryView> {
    listing_order(listed_entries(dir, raw))
}

/// In a directory listing every directory comes before every file, and among
/// entries of one kind a later entry's name never comes before an earlier
/// one's.
pub proof fn lemma_listing_directories_first(dir: Seq<char>, raw: Seq<RawDirEntry>, i: int, j: int)
    requires
        0 <= i < j < dir_listing_spec(dir, raw).len(),
    ensures
        ({
            let s = dir_listing_spec(dir, raw);
            &&& s[j].2 ==> s[i].2
            &&& s[i].2 == s[j].2 ==> !name_lt(s[j].0, s[i].0)
        }),
{
    lemma_listing_order(listed_entries(dir, raw));
    let s = dir_listing_spec(dir, raw);
    assert(!listed_before(s[j], s[i]));
}

/// A name comes before every longer name that it begins: a proper prefix is
/// listed first.
pub proof fn lemma_name_lt_prefix(a: Seq<char>, s: Seq<char>)
    requires
        s.len() > 0,
    ensures
        name_lt(a, a + s),
        !name_lt(a + s, a),
    decreases a.len(),
{
    if a.len() > 0 {
        assert((a + s).drop_first() == a.drop_first() + s);
        assert((a + s)[0] == a[0]);
        lemma_name_lt_prefix(a.drop_first(), s);
    }
}

/// After a common beginning `p`, the first differing character decides: the
/// name whose character has the smaller code point comes first, whatever
/// follows.
pub proof fn lemma_name_lt_first_difference(p: Seq<char>, x: char, y: char, r1: Seq<char>, r2: Seq<char>)
    requires
        (x as u32) < (y as u32),
    ensures
        name_lt(p + seq![x] + r1, p + seq![y] + r2),
        !name_lt(p + seq![y] + r2, p + seq![x] + r1),
    decreases p.len(),
{
    let a = p + seq![x] + r1;
    let b = p + seq![y] + r2;
    if p.len() > 0 {
        assert(a.drop_first() == p.drop_first() + seq![x] + r1);
        assert(b.drop_first() == p.drop_first() + seq![y] + r2);
        assert(a[0] == p[0] && b[0] == p[0]);
        lemma_name_lt_first_difference(p.drop_first(), x, y, r1, r2);
    } else {
        assert(a[0] == x && b[0] == y);
    }
}

/// Of two different names, one comes before the other.
pub proof fn lemma_name_lt_total(a: Seq<char>, b: Seq<char>)
    requires
        a != b,
    ensures
        name_lt(a, b) || name_lt(b, a),
    decreases a.len(),
{
    if a.len() > 0 && b.len() > 0 && a[0] == b[0] {
        if a.drop_first() == b.drop_first() {
            assert(a == seq![a[0]] + a.drop_first());
            assert(b == seq![b[0]] + b.drop_first());
        }
        lemma_name_lt_total(a.drop_first(), b.drop_first());
    } else if a.len() > 0 && b.len() > 0 {
        // distinct chars have distinct code points
        vstd::utf8::char_u32_cast(a[0], a[0] as u32);
        vstd::utf8::char_u32_cast(b[0], b[0] as u32);
    } else if a.len() == 0 && b.len() == 0 {
        assert(a == b);
    }
}

/// `name_lt` is transitive.
pub proof fn lemma_name_lt_transitive(a: Seq<char>, b: Seq<char>, c: Seq<char>)
    requires
        name_lt(a, b),
        name_lt(b, c),
    ensures
        name_lt(a, c),
    decreases a.len(),
{
    if a.len() > 0 && b.len() > 0 && c.len() > 0 && a[0] == b[0] && b[0] == c[0] {
        lemma_name_lt_transitive(a.drop_first(), b.drop_first(), c.drop_first());
    }
}

/// `name_lt` is irreflexive.
pub proof fn lemma_name_lt_irreflexive(a: Seq<char>)
    ensures
        !name_lt(a, a),
    decreases a.len(),
{
    if a.len() > 0 {
        lemma_name_lt_irreflexive(a.drop_first());
    }
}

proof fn lemma_listed_before_transitive(a: EntryView, b: EntryView, c: EntryView)
    requires
        listed_before(a, b),
        listed_before(b, c),
    ensures
        listed_before(a, c),
{
    if a.2 == b.2 && b.2 == c.2 {
        lemma_name_lt_transitive(a.0, b.0, c.0);
    }
}

/// No entry of `s` is listed before an earlier one.
pub open spec fn in_listing_order(s: Seq<EntryView>) -> bool {
    forall|i: int, j: int| 0 <= i < j < s.len() ==> !listed_before(#[trigger] s[j], #[trigger] s[i])
}

proof fn lemma_insert_position(s: Seq<EntryView>, x: EntryView)
    ensures
        0 <= insert_position(s, x) <= s.len(),
        forall|k: int| 0 <= k < insert_position(s, x) ==> !listed_before(x, #[trigger] s[k]),
        insert_position(s, x) < s.len() ==> listed_before(x, s[insert_position(s, x)]),
    decreases s.len(),
{
    if s.len() > 0 && !listed_before(x, s[0]) {
        lemma_insert_position(s.drop_first(), x);
        assert forall|k: int| 0 <= k < insert_position(s, x) implies !listed_before(x, #[trigger] s[k]) by {
            if k > 0 {
                assert(s[k] == s.drop_first()[k - 1]);
            }
        }
    }
}

/// The listing is in listing order (directories first, then by name) and holds
/// exactly the listed entries.
pub proof fn lemma_listing_order(s: Seq<EntryView>)
    ensures
        in_listing_order(listing_order(s)),
        listing_order(s).to_multiset() == s.to_multiset(),
    decreases s.len(),
{
    broadcast use vstd::seq_lib::group_to_multiset_ensures;

    if s.len() > 0 {
        let p = listing_order(s.drop_last());
        let x = s.last();
        lemma_listing_order(s.drop_last());
        lemma_insert_position(p, x);
        let q = insert_position(p, x);
        let r = p.insert(q, x);
        assert forall|i: int, j: int| 0 <= i < j < r.len() implies !listed_before(#[trigger] r[j], #[trigger] r[i]) by {
            if j < q {
                assert(r[i] == p[i] && r[j] == p[j]);
            } else if j == q {
                assert(r[i] == p[i]);
            } else if i < q {
                assert(r[i] == p[i] && r[j] == p[j - 1]);
            } else if i == q {
                assert(r[j] == p[j - 1]);
                if listed_before(p[j - 1], x) {
                    assert(listed_before(x, p[q]));
                    lemma_listed_before_transitive(p[j - 1], x, p[q]);
                    if j - 1 > q {
                        assert(!listed_before(p[j - 1], p[q]));
                    } else {
                        lemma_name_lt_irreflexive(p[q].0);
                    }
                }
            } else {
                assert(r[i] == p[i - 1] && r[j] == p[j - 1]);
            }
        }
        assert(s.drop_last().push(x) == s);
    }
}

/// `a`'s name comes before `b`'s.
fn name_less(a: &[char], b: &[char]) -> (r: bool)
    ensures
        r == name_lt(a@, b@),
{
    let mut i: usize = 0;
    assert(a@.skip(0) == a@ && b@.skip(0) == b@);
    while i < a.len() && i < b.len() && a[i] == b[i]
        invariant
            i <= a@.len(),
            i <= b@.len(),
            a@.take(i as int) == b@.take(i as int),
            name_lt(a@, b@) == name_lt(a@.skip(i as int), b@.skip(i as int)),
        decreases a.len() - i,
    {
        assert(a@.skip(i as int).drop_first() == a@.skip(i + 1));
        assert(b@.skip(i as int).drop_first() == b@.skip(i + 1));
        assert(a@.take(i + 1) == a@.take(i as int).push(a@[i as int]));
        assert(b@.take(i + 1) == b@.take(i as int).push(b@[i as int]));
        i = i + 1;
    }
    if i == a.len() {
        i < b.len()
    } else if i == b.len() {
        false
    } else {
        assert(a@.skip(i as int)[0] == a@[i as int]);
        assert(b@.skip(i as int)[0] == b@[i as int]);
        (a[i] as u32) < (b[i] as u32)
    }
}

/// A listing entry with its name as chars, for ordering.
struct Keyed {
    entry: SftpEntry,
    name: Vec<char>,
}

spec fn keyed_view(k: Keyed) -> EntryView {
    k.entry.view()
}

fn keyed_before(a: &Keyed, b: &Keyed) -> (r: bool)
    requires
        a.name@ == a.entry.name@,
        b.name@ == b.entry.name@,
    ensures
        r == listed_before(a.entry.view(), b.entry.view()),
{
    (a.entry.is_dir && !b.entry.is_dir) || (a.entry.is_dir == b.entry.is_dir && name_less(
        &a.name,
        &b.name,
    ))
}

/// The listing of directory `dir`: the entries other than `"."` and `".."`,
/// each with its full path, directories first and then by name.
#[verifier::spinoff_prover]
pub fn dir_listing(dir: &str, raw: Vec<RawDirEntry>) -> (entries: Vec<SftpEntry>)
    ensures
        entries@.len() == dir_listing_spec(dir@, raw@).len(),
        forall|i: int| 0 <= i < entries@.len() ==> #[trigger] entries@[i].view() == dir_listing_spec(dir@, raw@)[i],
{
    let dir_chars = chars_of(dir);
    let base = trim_end_char(&dir_chars, '/');
    let ghost rs = raw@;
    let n = raw.len();
    let mut input = raw;
    let mut stack: Vec<RawDirEntry> = Vec::new();
    while input.len() > 0
        invariant
            n == rs.len(),
            input@.len() + stack@.len() == n,
            forall|k: int| 0 <= k < input@.len() ==> #[trigger] input@[k] == rs[k],
            forall|k: int| 0 <= k < stack@.len() ==> #[trigger] stack@[k] == rs[n - 1 - k],
        decreases input.len(),
    {
        let x = input.pop().unwrap();
        stack.push(x);
    }
    let mut sorted: Vec<Keyed> = Vec::new();
    let mut i: usize = 0;
    let ghost mut listed: Seq<EntryView> = Seq::empty();
    while i < n
        invariant
            n == rs.len(),
            i <= n,
            base@ == trim_end_seq(dir@, '/'),
            stack@.len() == n - i,
            forall|k: int| 0 <= k < stack@.len() ==> #[trigger] stack@[k] == rs[n - 1 - k],
            listed == listed_entries(dir@, rs.take(i as int)),
            sorted@.len() == listing_order(listed).len(),
            forall|k: int| 0 <= k < sorted@.len() ==> (#[trigger] sorted@[k]).name@ == sorted@[k].entry.name@
                && sorted@[k].entry.view() == listing_order(listed)[k],
        decreases n - i,
    {
        let r = stack.pop().unwrap();
        assert(rs.take(i + 1).drop_last() == rs.take(i as int));
        assert(rs.take(i + 1).last() == r);
        let name = chars_of(r.name.as_str());
        let dot = ['.'];
        let dotdot = ['.', '.'];
        assert(dot@ == seq!['.']);
        assert(dotdot@ == seq!['.', '.']);
        let is_dot = (name.len() == 1 && name[0] == '.') || (name.len() == 2 && name[0] == '.'
            && name[1] == '.');
        assert(is_dot == is_dot_name(name@)) by {
            if name@.len() == 1 && name@[0] == '.' {
                assert(name@ =~= seq!['.']);
            }
            if name@.len() == 2 && name@[0] == '.' && name@[1] == '.' {
                assert(name@ =~= seq!['.', '.']);
            }
        }
        if !is_dot {
            let mut path: Vec<char> = Vec::new();
            let mut q: usize = 0;
            while q < base.len()
                invariant
                    q <= base@.len(),
                    path@ == base@.take(q as int),
                decreases base.len() - q,
            {
                path.push(base[q]);
                assert(base@.take(q + 1) == base@.take(q as int).push(base@[q as int]));
                q = q + 1;
            }
            path.push('/');
            let mut q: usize = 0;
            let ghost pre = path@;
            while q < name.len()
                invariant
                    q <= name@.len(),
                    path@ == pre + name@.take(q as int),
                decreases name.len() - q,
            {
                path.push(name[q]);
                assert(name@.take(q + 1) == name@.take(q as int).push(name@[q as int]));
                q = q + 1;
            }
            assert(base@.take(base@.len() as int) == base@);
            assert(name@.take(name@.len() as int) == name@);
            let size = match r.size {
                Some(s) => s,
                None => 0,
            };
            let entry = SftpEntry {
                name: r.name,
                full_path: string_from_chars(&path),
                is_dir: r.is_dir,
                size,
            };
            let x = Keyed { entry, name };
            assert(x.entry.view() == entry_of(dir@, r));
            // insert into the ordered list
            let ghost ord = listing_order(listed);
            let mut p: usize = 0;
            assert(ord.skip(0) == ord);
            while p < sorted.len() && !keyed_before(&x, &sorted[p])
                invariant
                    p <= sorted@.len(),
                    x.name@ == x.entry.name@,
                    sorted@.len() == ord.len(),
                    forall|k: int| 0 <= k < sorted@.len() ==> (#[trigger] sorted@[k]).name@ == sorted@[k].entry.name@
                        && sorted@[k].entry.view() == ord[k],
                    insert_position(ord, x.entry.view()) == p + insert_position(ord.skip(p as int), x.entry.view()),
                decreases sorted.len() - p,
            {
                assert(ord.skip(p as int)[0] == ord[p as int]);
                assert(ord.skip(p as int).drop_first() == ord.skip(p + 1));
                p = p + 1;
            }
            if p < sorted.len() {
                assert(ord.skip(p as int)[0] == ord[p as int]);
            }
            assert(insert_position(ord, x.entry.view()) == p);
            proof {
                listed = listed.push(x.entry.view());
            }
            assert(listing_order(listed) == ord.insert(p as int, x.entry.view())) by {
                assert(listed.drop_last() == listed_entries(dir@, rs.take(i as int)));
            }
            let ghost before_ins = sorted@;
            sorted.insert(p, x);
            assert forall|k: int| 0 <= k < sorted@.len() implies (#[trigger] sorted@[k]).name@ == sorted@[k].entry.name@
                && sorted@[k].entry.view() == listing_order(listed)[k] by {
                if k < p {
                    assert(sorted@[k] == before_ins[k]);
                } else if k > p {
                    assert(sorted@[k] == before_ins[k - 1]);
                }
            }
        }
        i = i + 1;
    }
    assert(rs.take(n as int) == rs);
    let mut entries: Vec<SftpEntry> = Vec::new();
    let m = sorted.len();
    let mut rest: Vec<Keyed> = Vec::new();
    while sorted.len() > 0
        invariant
            sorted@.len() + rest@.len() == m,
            m == listing_order(listed).len(),
            forall|k: int| 0 <= k < sorted@.len() ==> (#[trigger] sorted@[k]).entry.view() == listing_order(listed)[k],
            forall|k: int| 0 <= k < rest@.len() ==> (#[trigger] rest@[k]).entry.view() == listing_order(listed)[m - 1 - k],
        decreases sorted.len(),
    {
        let x = sorted.pop().unwrap();
        rest.push(x);
    }
    while rest.len() > 0
        invariant
            entries@.len() + rest@.len() == m,
            m == listing_order(listed).len(),
            forall|k: int| 0 <= k < rest@.len() ==> (#[trigger] rest@[k]).entry.view() == listing_order(listed)[m - 1 - k],
            forall|k: int| 0 <= k < entries@.len() ==> (#[trigger] entries@[k]).view() == listing_order(listed)[k],
        decreases rest.len(),
    {
        let x = rest.pop().unwrap();
        entries.push(x.entry);
    }
    entries
}

// ── the worker's decisions ───────────────────────────────────────────────────

/// Where the worker stands: which outside operation it waits for, with what
/// it needs to remember about the request in progress.
pub enum WorkerState {
    Connecting { host: String, port: u16 },
    Authenticating,
    OpeningChannel,
    RequestingSubsystem,
    StartingSftp,
    ResolvingHome,
    Idle,
    Listing { path: String },
    Opening { path: String, name: String },
    Reading { path: String, name: String },
    Done,
}

/// The outcome of an outside operation; an error is carried as its message.
pub enum WorkerEvent {
    ConnectDone(Result<(), String>),
    AuthDone(Result<bool, String>),
    ChannelDone(Result<(), String>),
    SubsystemDone(Result<(), String>),
    SessionDone(Result<(), String>),
    /// The canonical home directory, `None` when it could not be resolved.
    HomeDone(Option<String>),
    /// The next command, `None` when the command channel is closed.
    CommandReceived(Option<SftpCmd>),
    ListDone(Result<Vec<RawDirEntry>, String>),
    OpenDone(Result<(), String>),
    ReadDone(Result<Vec<u8>, String>),
}

/// The outside operation the worker asks for next.
pub enum WorkerOp {
    Connect,
    Authenticate,
    OpenChannel,
    RequestSubsystem,
    StartSftp,
    ResolveHome,
    NextCommand,
    ReadDir(String),
    OpenFile(String),
    ReadFile,
    Stop,
}

/// Something the worker does towards the user interface.
pub enum WorkerAction {
    Send(SftpEvent),
    Repaint,
}

/// The worker's next state, what it does now, and the operation it asks for.
pub struct WorkerStep {
    pub state: WorkerState,
    pub actions: Vec<WorkerAction>,
    pub op: WorkerOp,
}

/// `a` sends an error report with message `msg`.
pub open spec fn is_error(a: WorkerAction, msg: Seq<char>) -> bool {
    a matches WorkerAction::Send(SftpEvent::Error(m)) && m@ == msg
}

/// `a` sends `Busy(b)`.
pub open spec fn is_busy(a: WorkerAction, b: bool) -> bool {
    a matches WorkerAction::Send(SftpEvent::Busy(x)) && x == b
}

/// The session ends with an error report: the error, a repaint, then stop.
pub open spec fn fails_with(s: WorkerStep, msg: Seq<char>) -> bool {
    &&& s.state is Done
    &&& s.op is Stop
    &&& s.actions@.len() == 2
    &&& is_error(s.actions@[0], msg)
    &&& s.actions@[1] is Repaint
}

/// The session moves on to `op` in state `st`, reporting nothing.
pub open spec fn quietly_to(s: WorkerStep, st: WorkerState, op: WorkerOp) -> bool {
    s.state == st && s.op == op && s.actions@.len() == 0
}

/// A request ends: `report`, `Busy(false)`, a repaint; then the next command.
pub open spec fn request_ends(s: WorkerStep) -> bool {
    &&& s.state is Idle
    &&& s.op is NextCommand
    &&& s.actions@.len() == 3
    &&& is_busy(s.actions@[1], false)
    &&& s.actions@[2] is Repaint
}

/// A request starts: `Busy(true)` and a repaint.
pub open spec fn request_starts(s: WorkerStep) -> bool {
    &&& s.actions@.len() == 2
    &&& is_busy(s.actions@[0], true)
    &&& s.actions@[1] is Repaint
}

pub open spec fn connect_error_msg(host: Seq<char>, port: u16, e: Seq<char>) -> Seq<char> {
    "Connect to "@ + host + ":"@ + decimal_seq(port as nat) + ": "@ + e
}

pub open spec fn list_error_msg(path: Seq<char>, e: Seq<char>) -> Seq<char> {
    "List "@ + path + ": "@ + e
}

pub open spec fn open_error_msg(path: Seq<char>, name: Seq<char>, e: Seq<char>) -> Seq<char> {
    "Download "@ + name + ": "@ + "Open "@ + path + ": "@ + e
}

pub open spec fn read_error_msg(name: Seq<char>, e: Seq<char>) -> Seq<char> {
    "Download "@ + name + ": "@ + "Read "@ + name + ": "@ + e
}

/// What the worker does on `event` in state `st`.
pub open spec fn step_spec(st: WorkerState, event: WorkerEvent, s: WorkerStep) -> bool {
    match st {
        WorkerState::Connecting { host, port } => match event {
            WorkerEvent::ConnectDone(Ok(_)) => quietly_to(s, WorkerState::Authenticating, WorkerOp::Authenticate),
            WorkerEvent::ConnectDone(Err(e)) => fails_with(s, connect_error_msg(host@, port, e@)),
            _ => quietly_to(s, WorkerState::Connecting { host, port }, WorkerOp::Connect),
        },
        WorkerState::Authenticating => match event {
            WorkerEvent::AuthDone(Ok(true)) => quietly_to(s, WorkerState::OpeningChannel, WorkerOp::OpenChannel),
            WorkerEvent::AuthDone(Ok(false)) => fails_with(s, "Authentication failed (wrong credentials)"@),
            WorkerEvent::AuthDone(Err(e)) => fails_with(s, "Auth: "@ + e@),
            _ => quietly_to(s, WorkerState::Authenticating, WorkerOp::Authenticate),
        },
        WorkerState::OpeningChannel => match event {
            WorkerEvent::ChannelDone(Ok(_)) => quietly_to(s, WorkerState::RequestingSubsystem, WorkerOp::RequestSubsystem),
            WorkerEvent::ChannelDone(Err(e)) => fails_with(s, "Open session channel: "@ + e@),
            _ => quietly_to(s, WorkerState::OpeningChannel, WorkerOp::OpenChannel),
        },
        WorkerState::RequestingSubsystem => match event {
            WorkerEvent::SubsystemDone(Ok(_)) => quietly_to(s, WorkerState::StartingSftp, WorkerOp::StartSftp),
            WorkerEvent::SubsystemDone(Err(e)) => fails_with(s, "Request sftp subsystem: "@ + e@),
            _ => quietly_to(s, WorkerState::RequestingSubsystem, WorkerOp::RequestSubsystem),
        },
        WorkerState::StartingSftp => match event {
            WorkerEvent::SessionDone(Ok(_)) => quietly_to(s, WorkerState::ResolvingHome, WorkerOp::ResolveHome),
            WorkerEvent::SessionDone(Err(e)) => fails_with(s, "SFTP session: "@ + e@),
            _ => quietly_to(s, WorkerState::StartingSftp, WorkerOp::StartSftp),
        },
        WorkerState::ResolvingHome => match event {
            WorkerEvent::HomeDone(h) => {
                &&& s.state is Idle
                &&& s.op is NextCommand
                &&& s.actions@.len() == 2
                &&& s.actions@[0] matches WorkerAction::Send(SftpEvent::Connected { home_dir })
                    && home_dir@ == match h {
                    Some(d) => d@,
                    None => "/"@,
                }
                &&& s.actions@[1] is Repaint
            },
            _ => quietly_to(s, WorkerState::ResolvingHome, WorkerOp::ResolveHome),
        },
        WorkerState::Idle => match event {
            WorkerEvent::CommandReceived(None) => quietly_to(s, WorkerState::Done, WorkerOp::Stop),
            WorkerEvent::CommandReceived(Some(SftpCmd::Disconnect)) => quietly_to(s, WorkerState::Done, WorkerOp::Stop),
            WorkerEvent::CommandReceived(Some(SftpCmd::ListDir(path))) => {
                &&& request_starts(s)
                &&& s.state == WorkerState::Listing { path }
                &&& s.op matches WorkerOp::ReadDir(p) && p@ == path@
            },
            WorkerEvent::CommandReceived(Some(SftpCmd::Download { path, name })) => {
                &&& request_starts(s)
                &&& s.state == WorkerState::Opening { path, name }
                &&& s.op matches WorkerOp::OpenFile(p) && p@ == path@
            },
            _ => quietly_to(s, WorkerState::Idle, WorkerOp::NextCommand),
        },
        WorkerState::Listing { path } => match event {
            WorkerEvent::ListDone(Ok(raw)) => {
                &&& request_ends(s)
                &&& s.actions@[0] matches WorkerAction::Send(SftpEvent::DirListing { path: p, entries })
                    && p == path && entries@.len() == dir_listing_spec(path@, raw@).len() && forall|i: int|
                    0 <= i < entries@.len() ==> #[trigger] entries@[i].view() == dir_listing_spec(
                        path@,
                        raw@,
                    )[i]
            },
            WorkerEvent::ListDone(Err(e)) => request_ends(s) && is_error(s.actions@[0], list_error_msg(path@, e@)),
            _ => quietly_to(s, WorkerState::Listing { path }, WorkerOp::ReadDir(path)),
        },
        WorkerState::Opening { path, name } => match event {
            WorkerEvent::OpenDone(Ok(_)) => quietly_to(s, WorkerState::Reading { path, name }, WorkerOp::ReadFile),
            WorkerEvent::OpenDone(Err(e)) => request_ends(s) && is_error(s.actions@[0], open_error_msg(path@, name@, e@)),
            _ => quietly_to(s, WorkerState::Opening { path, name }, WorkerOp::OpenFile(path)),
        },
        WorkerState::Reading { path, name } => match event {
            WorkerEvent::ReadDone(Ok(data)) => request_ends(s) && s.actions@[0] == WorkerAction::Send(
                SftpEvent::FileData { name, data },
            ),
            WorkerEvent::ReadDone(Err(e)) => request_ends(s) && is_error(s.actions@[0], read_error_msg(name@, e@)),
            _ => quietly_to(s, WorkerState::Reading { path, name }, WorkerOp::ReadFile),
        },
        WorkerState::Done => quietly_to(s, WorkerState::Done, WorkerOp::Stop),
    }
}

/// Some action of `acts` sends `Busy(b)`.
pub open spec fn sends_busy(acts: Seq<WorkerAction>, b: bool) -> bool {
    exists|i: int| 0 <= i < acts.len() && is_busy(#[trigger] acts[i], b)
}

/// The busy indicator brackets requests: `Busy(true)` is only sent when an
/// idle worker takes up a listing or download request, and `Busy(false)` only
/// when a request in progress ends and the worker is idle again.
pub proof fn lemma_busy_bracketing(st: WorkerState, event: WorkerEvent, s: WorkerStep)
    requires
        step_spec(st, event, s),
    ensures
        sends_busy(s.actions@, true) ==> st is Idle && (s.state is Listing || s.state is Opening),
        sends_busy(s.actions@, false) ==> (st is Listing || st is Opening || st is Reading)
            && s.state is Idle,
{
    if sends_busy(s.actions@, true) {
        let i = choose|i: int| 0 <= i < s.actions@.len() && is_busy(#[trigger] s.actions@[i], true);
        match st {
            WorkerState::Listing { .. } | WorkerState::Opening { .. } | WorkerState::Reading { .. } => {
                assert(i != 1 && i != 2);
            },
            _ => {},
        }
    }
    if sends_busy(s.actions@, false) {
        let i = choose|i: int| 0 <= i < s.actions@.len() && is_busy(#[trigger] s.actions@[i], false);
        match st {
            WorkerState::Idle => {
                assert(i == 0 || i == 1);
            },
            _ => {},
        }
    }
}

/// `prefix` followed by `e`.
fn message(prefix: &str, e: &str) -> (m: String)
    ensures
        m@ == prefix@ + e@,
{
    let mut v: Vec<char> = Vec::new();
    push_str(&mut v, prefix);
    push_str(&mut v, e);
    string_from_chars(&v)
}

/// The text `s` as a `String`.
fn text_of(s: &str) -> (r: String)
    ensures
        r@ == s@,
{
    let v = chars_of(s);
    string_from_chars(&v)
}

fn fail(msg: String) -> (s: WorkerStep)
    ensures
        fails_with(s, msg@),
{
    let mut actions: Vec<WorkerAction> = Vec::new();
    actions.push(WorkerAction::Send(SftpEvent::Error(msg)));
    actions.push(WorkerAction::Repaint);
    WorkerStep { state: WorkerState::Done, actions, op: WorkerOp::Stop }
}

fn quiet(state: WorkerState, op: WorkerOp) -> (s: WorkerStep)
    ensures
        quietly_to(s, state, op),
{
    WorkerStep { state, actions: Vec::new(), op }
}

fn end_request(report: SftpEvent) -> (s: WorkerStep)
    ensures
        request_ends(s),
        s.actions@[0] == WorkerAction::Send(report),
{
    let mut actions: Vec<WorkerAction> = Vec::new();
    actions.push(WorkerAction::Send(report));
    actions.push(WorkerAction::Send(SftpEvent::Busy(false)));
    actions.push(WorkerAction::Repaint);
    WorkerStep { state: WorkerState::Idle, actions, op: WorkerOp::NextCommand }
}

fn start_request(state: WorkerState, op: WorkerOp) -> (s: WorkerStep)
    ensures
        request_starts(s),
        s.state == state,
        s.op == op,
{
    let mut actions: Vec<WorkerAction> = Vec::new();
    actions.push(WorkerAction::Send(SftpEvent::Busy(true)));
    actions.push(WorkerAction::Repaint);
    WorkerStep { state, actions, op }
}

/// The worker's first step: connect to `host:port`.
pub fn worker_start(host: String, port: u16) -> (s: WorkerStep)
    ensures
        s.state == (WorkerState::Connecting { host, port }),
        s.op is Connect,
        s.actions@.len() == 0,
{
    WorkerStep { state: WorkerState::Connecting { host, port }, actions: Vec::new(), op: WorkerOp::Connect }
}

/// What the worker does on `event` in state `state`: a failure before the
/// session is ready ends it with an error report; a listing or download
/// request is announced with `Busy(true)` and ends with its result or an error
/// report followed by `Busy(false)`; `Disconnect` or a closed command channel
/// ends the session quietly. An outcome of an operation other than the one
/// asked for changes nothing.
pub fn worker_step(state: WorkerState, event: WorkerEvent) -> (s: WorkerStep)
    ensures
        step_spec(state, event, s),
{
    match state {
        WorkerState::Connecting { host, port } => match event {
            WorkerEvent::ConnectDone(Ok(_)) => quiet(WorkerState::Authenticating, WorkerOp::Authenticate),
            WorkerEvent::ConnectDone(Err(e)) => {
                let mut v: Vec<char> = Vec::new();
                push_str(&mut v, "Connect to ");
                push_str(&mut v, host.as_str());
                push_str(&mut v, ":");
                push_decimal(&mut v, port as u64);
                push_str(&mut v, ": ");
                push_str(&mut v, e.as_str());
                fail(string_from_chars(&v))
            },
            _ => quiet(WorkerState::Connecting { host, port }, WorkerOp::Connect),
        },
        WorkerState::Authenticating => match event {
            WorkerEvent::AuthDone(Ok(true)) => quiet(WorkerState::OpeningChannel, WorkerOp::OpenChannel),
            WorkerEvent::AuthDone(Ok(false)) => fail(text_of("Authentication failed (wrong credentials)")),
            WorkerEvent::AuthDone(Err(e)) => fail(message("Auth: ", e.as_str())),
            _ => quiet(WorkerState::Authenticating, WorkerOp::Authenticate),
        },
        WorkerState::OpeningChannel => match event {
            WorkerEvent::ChannelDone(Ok(_)) => quiet(WorkerState::RequestingSubsystem, WorkerOp::RequestSubsystem),
            WorkerEvent::ChannelDone(Err(e)) => fail(message("Open session channel: ", e.as_str())),
            _ => quiet(WorkerState::OpeningChannel, WorkerOp::OpenChannel),
        },
        WorkerState::RequestingSubsystem => match event {
            WorkerEvent::SubsystemDone(Ok(_)) => quiet(WorkerState::StartingSftp, WorkerOp::StartSftp),
            WorkerEvent::SubsystemDone(Err(e)) => fail(message("Request sftp subsystem: ", e.as_str())),
            _ => quiet(WorkerState::RequestingSubsystem, WorkerOp::RequestSubsystem),
        },
        WorkerState::StartingSftp => match event {
            WorkerEvent::SessionDone(Ok(_)) => quiet(WorkerState::ResolvingHome, WorkerOp::ResolveHome),
            WorkerEvent::SessionDone(Err(e)) => fail(message("SFTP session: ", e.as_str())),
            _ => quiet(WorkerState::StartingSftp, WorkerOp::StartSftp),
        },
        WorkerState::ResolvingHome => match event {
            WorkerEvent::HomeDone(h) => {
                let home_dir = match h {
                    Some(d) => d,
                    None => text_of("/"),
                };
                let mut actions: Vec<WorkerAction> = Vec::new();
                actions.push(WorkerAction::Send(SftpEvent::Connected { home_dir }));
                actions.push(WorkerAction::Repaint);
                WorkerStep { state: WorkerState::Idle, actions, op: WorkerOp::NextCommand }
            },
            _ => quiet(WorkerState::ResolvingHome, WorkerOp::ResolveHome),
        },
        WorkerState::Idle => match event {
            WorkerEvent::CommandReceived(None) => quiet(WorkerState::Done, WorkerOp::Stop),
            WorkerEvent::CommandReceived(Some(SftpCmd::Disconnect)) => quiet(WorkerState::Done, WorkerOp::Stop),
            WorkerEvent::CommandReceived(Some(SftpCmd::ListDir(path))) => {
                let p = path.clone();
                start_request(WorkerState::Listing { path }, WorkerOp::ReadDir(p))
            },
            WorkerEvent::CommandReceived(Some(SftpCmd::Download { path, name })) => {
                let p = path.clone();
                start_request(WorkerState::Opening { path, name }, WorkerOp::OpenFile(p))
            },
            _ => quiet(WorkerState::Idle, WorkerOp::NextCommand),
        },
        WorkerState::Listing { path } => match event {
            WorkerEvent::ListDone(Ok(raw)) => {
                let entries = dir_listing(path.as_str(), raw);
                end_request(SftpEvent::DirListing { path, entries })
            },
            WorkerEvent::ListDone(Err(e)) => {
                let mut v: Vec<char> = Vec::new();
                push_str(&mut v, "List ");
                push_str(&mut v, path.as_str());
                push_str(&mut v, ": ");
                push_str(&mut v, e.as_str());
                end_request(SftpEvent::Error(string_from_chars(&v)))
            },
            _ => {
                let p = path.clone();
                quiet(WorkerState::Listing { path }, WorkerOp::ReadDir(p))
            },
        },
        WorkerState::Opening { path, name } => match event {
            WorkerEvent::OpenDone(Ok(_)) => quiet(WorkerState::Reading { path, name }, WorkerOp::ReadFile),
            WorkerEvent::OpenDone(Err(e)) => {
                let mut v: Vec<char> = Vec::new();
                push_str(&mut v, "Download ");
                push_str(&mut v, name.as_str());
                push_str(&mut v, ": ");
                push_str(&mut v, "Open ");
                push_str(&mut v, path.as_str());
                push_str(&mut v, ": ");
                push_str(&mut v, e.as_str());
                end_request(SftpEvent::Error(string_from_chars(&v)))
            },
            _ => {
                let p = path.clone();
                quiet(WorkerState::Opening { path, name }, WorkerOp::OpenFile(p))
            },
        },
        WorkerState::Reading { path, name } => match event {
            WorkerEvent::ReadDone(Ok(data)) => end_request(SftpEvent::FileData { name, data }),
            WorkerEvent::ReadDone(Err(e)) => {
                let mut v: Vec<char> = Vec::new();
                push_str(&mut v, "Download ");
                push_str(&mut v, name.as_str());
                push_str(&mut v, ": ");
                push_str(&mut v, "Read ");
                push_str(&mut v, name.as_str());
                push_str(&mut v, ": ");
                push_str(&mut v, e.as_str());
                end_request(SftpEvent::Error(string_from_chars(&v)))
            },
            _ => quiet(WorkerState::Reading { path, name }, WorkerOp::ReadFile),
        },
        WorkerState::Done => quiet(WorkerState::Done, WorkerOp::Stop),
    }
}

} // verus!
