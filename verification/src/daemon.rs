//! The daemon's decisions: its command line, and what it does with each
//! request. Reading the socket, walking the disk and deleting are done around
//! these functions; they decide what is walked or deleted and what is
//! answered.

use vstd::prelude::*;
use crate::guard::GuardError;
use crate::protocol::{Frame, Request, ScanStats};
use crate::text::{decimal_text, digit_char, lossy, utf8_lossy};

verus! {

/// The daemon's settings, from its command line.
pub struct Args {
    /// Name of the abstract socket to listen on.
    pub socket: String,
    /// The session root; nothing outside it is scanned or deleted.
    pub root: String,
    pub threads: usize,
}

/// The root a daemon started without `--root` serves.
pub open spec fn default_root() -> Seq<char> {
    "/sdcard"@
}

/// The value of a run of decimal digits.
pub open spec fn digits_value(d: Seq<char>) -> int
    decreases d.len(),
{
    if d.len() == 0 {
        0
    } else {
        digits_value(d.drop_last()) * 10 + (d.last() as int - '0' as int)
    }
}

pub open spec fn all_digits(d: Seq<char>) -> bool {
    forall|i: int| 0 <= i < d.len() ==> '0' <= #[trigger] d[i] <= '9'
}

/// What `str::parse::<usize>` accepts: an optional `+`, then one or more
/// decimal digits whose value fits.
pub open spec fn parsed_usize(s: Seq<char>) -> Option<usize> {
    let d = if s.len() > 0 && s[0] == '+' {
        s.drop_first()
    } else {
        s
    };
    if d.len() > 0 && all_digits(d) && digits_value(d) <= usize::MAX {
        Some(digits_value(d) as usize)
    } else {
        None
    }
}

/// Settings as the command line is read so far.
pub struct ArgsSoFar {
    pub socket: Option<Seq<char>>,
    pub root: Seq<char>,
    pub threads: usize,
}

/// Read the command line from position `i` on, or fail on a flag without
/// its value, a bad thread count, or anything else.
pub open spec fn parse_from(argv: Seq<Seq<char>>, i: int, st: ArgsSoFar) -> Option<ArgsSoFar>
    decreases argv.len() - i,
{
    if i < 0 || i >= argv.len() {
        Some(st)
    } else if i + 1 >= argv.len() {
        None
    } else if argv[i] == "--socket"@ {
        parse_from(argv, i + 2, ArgsSoFar { socket: Some(argv[i + 1]), ..st })
    } else if argv[i] == "--root"@ {
        parse_from(argv, i + 2, ArgsSoFar { root: argv[i + 1], ..st })
    } else if argv[i] == "--threads"@ {
        match parsed_usize(argv[i + 1]) {
            Some(n) => parse_from(argv, i + 2, ArgsSoFar { threads: n, ..st }),
            None => None,
        }
    } else {
        None
    }
}

/// The settings a command line gives, or none where the daemon should print
/// its usage and exit: a socket name is required.
pub open spec fn parsed_args(argv: Seq<Seq<char>>) -> Option<ArgsSoFar> {
    match parse_from(argv, 0, ArgsSoFar { socket: None, root: default_root(), threads: 0 }) {
        Some(st) => if st.socket is Some {
            Some(st)
        } else {
            None
        },
        None => None,
    }
}

proof fn lemma_digits_nonneg(d: Seq<char>)
    requires
        all_digits(d),
    ensures
        digits_value(d) >= 0,
    decreases d.len(),
{
    if d.len() > 0 {
        assert(all_digits(d.drop_last())) by {
            assert forall|i: int| 0 <= i < d.drop_last().len() implies '0' <= #[trigger] d.drop_last()[i]
                <= '9' by {
                assert(d.drop_last()[i] == d[i]);
            }
        }
        lemma_digits_nonneg(d.drop_last());
    }
}

/// A longer run of digits is worth at least as much.
proof fn lemma_digits_mono(d: Seq<char>, k: int, m: int)
    requires
        all_digits(d),
        0 <= k <= m <= d.len(),
    ensures
        digits_value(d.take(k)) <= digits_value(d.take(m)),
    decreases m - k,
{
    if k < m {
        lemma_digits_mono(d, k, m - 1);
        assert(d.take(m).drop_last() =~= d.take(m - 1));
        assert(all_digits(d.take(m - 1))) by {
            assert forall|i: int| 0 <= i < d.take(m - 1).len() implies '0' <= #[trigger] d.take(m - 1)[i]
                <= '9' by {
                assert(d.take(m - 1)[i] == d[i]);
            }
        }
        lemma_digits_nonneg(d.take(m - 1));
        assert(d.take(m).last() == d[m - 1]);
    }
}

/// Decimal text is a run of digits worth the number written.
proof fn lemma_decimal_digits(n: nat)
    ensures
        decimal_text(n).len() > 0,
        all_digits(decimal_text(n)),
        digits_value(decimal_text(n)) == n,
    decreases n,
{
    let t = decimal_text(n);
    let d = n % 10;
    assert(('0' as nat) + d <= '9' as nat);
    assert(digit_char(d) as int == '0' as int + d);
    if n >= 10 {
        lemma_decimal_digits(n / 10);
        let u = decimal_text(n / 10);
        assert(t.drop_last() =~= u);
        assert(t.last() == digit_char(d));
        assert((n / 10) * 10 + d == n);
        assert(digits_value(t) == digits_value(u) * 10 + d);
        assert forall|i: int| 0 <= i < t.len() implies '0' <= #[trigger] t[i] <= '9' by {
            if i < u.len() {
                assert(t[i] == u[i]);
            }
        }
    } else {
        assert(t.drop_last() =~= Seq::<char>::empty());
        assert(t.last() == digit_char(d));
        assert(d == n);
        assert(digits_value(t.drop_last()) == 0);
        assert(digits_value(t) == d);
    }
}

/// A count written out in decimal reads back as the same count: what
/// `decimal` writes, `parse_usize` takes back.
pub proof fn law_decimal_reads_back(n: usize)
    ensures
        parsed_usize(decimal_text(n as nat)) == Some(n),
{
    lemma_decimal_digits(n as nat);
    let t = decimal_text(n as nat);
    assert(t[0] != '+');
}

/// Read a thread count as `str::parse::<usize>` does.
pub fn parse_usize(s: &str) -> (r: Option<usize>)
    ensures
        r == parsed_usize(s@),
{
    let cs = crate::text::chars_of(s);
    let start: usize = if cs.len() > 0 && cs[0] == '+' {
        1
    } else {
        0
    };
    let ghost d = if s@.len() > 0 && s@[0] == '+' {
        s@.drop_first()
    } else {
        s@
    };
    if start >= cs.len() {
        assert(d.len() == 0);
        return None;
    }
    let mut acc: usize = 0;
    let mut i: usize = start;
    proof {
        assert(d.take(0) =~= Seq::<char>::empty());
    }
    while i < cs.len()
        invariant
            cs@ == s@,
            start <= i <= cs@.len(),
            d =~= cs@.subrange(start as int, cs@.len() as int),
            d == (if s@.len() > 0 && s@[0] == '+' {
                s@.drop_first()
            } else {
                s@
            }),
            forall|q: int| 0 <= q < i - start ==> '0' <= #[trigger] d[q] <= '9',
            acc == digits_value(d.take(i - start)),
        decreases cs@.len() - i,
    {
        let c = cs[i];
        let ghost k = i - start;
        proof {
            assert(d[k] == c);
            assert(d.take(k + 1).drop_last() =~= d.take(k));
            assert(d.take(k + 1).last() == c);
        }
        if c < '0' || c > '9' {
            assert(!all_digits(d));
            return None;
        }
        let digit = (c as u32 - '0' as u32) as usize;
        proof {
            assert(digit == c as int - '0' as int);
        }
        let next = match acc.checked_mul(10) {
            Some(t) => t.checked_add(digit),
            None => None,
        };
        match next {
            Some(n) => {
                acc = n;
            },
            None => {
                proof {
                    if all_digits(d) {
                        lemma_digits_mono(d, k + 1, d.len() as int);
                        assert(d.take(d.len() as int) =~= d);
                    }
                }
                return None;
            },
        }
        i += 1;
    }
    proof {
        assert(d.take(d.len() as int) =~= d);
    }
    Some(acc)
}

fn is_flag(arg: &String, flag: &str) -> (r: bool)
    ensures
        r == (arg@ == flag@),
{
    let f = flag.to_string();
    *arg == f
}

/// Read the daemon's command line, without the program name. `None` means
/// the daemon should print its usage and exit.
pub fn parse_args(argv: &Vec<String>) -> (r: Option<Args>)
    ensures
        match r {
            Some(a) => parsed_args(argv@.map_values(|s: String| s@)) == Some(
                ArgsSoFar { socket: Some(a.socket@), root: a.root@, threads: a.threads },
            ),
            None => parsed_args(argv@.map_values(|s: String| s@)) is None,
        },
{
    let ghost av = argv@.map_values(|s: String| s@);
    let mut socket: Option<String> = None;
    let mut root = String::from_str("/sdcard");
    let mut threads: usize = 0;
    let mut i: usize = 0;
    while i < argv.len()
        invariant
            av == argv@.map_values(|s: String| s@),
            i <= argv@.len(),
            parse_from(av, 0, ArgsSoFar { socket: None, root: default_root(), threads: 0 })
                == parse_from(
                av,
                i as int,
                ArgsSoFar {
                    socket: match socket {
                        Some(s) => Some(s@),
                        None => None,
                    },
                    root: root@,
                    threads,
                },
            ),
        decreases argv@.len() - i,
    {
        if i + 1 >= argv.len() {
            return None;
        }
        let arg = &argv[i];
        let value = &argv[i + 1];
        proof {
            assert(av[i as int] == arg@);
            assert(av[i + 1] == value@);
        }
        if is_flag(arg, "--socket") {
            socket = Some(value.clone());
        } else if is_flag(arg, "--root") {
            root = value.clone();
        } else if is_flag(arg, "--threads") {
            match parse_usize(value.as_str()) {
                Some(n) => {
                    threads = n;
                },
                None => {
                    return None;
                },
            }
        } else {
            return None;
        }
        i += 2;
    }
    match socket {
        Some(s) => Some(Args { socket: s, root, threads }),
        None => None,
    }
}

impl GuardError {
    /// The text a refused request is answered with.
    pub fn message(&self) -> (m: String)
        ensures
            m@ == match self {
                GuardError::NotFound(p) => "no such path: "@ + p@,
                GuardError::OutsideRoot { target, root } => "refusing to touch "@ + target@
                    + ": outside the scan root "@ + root@,
                GuardError::IsRoot(p) => "refusing to delete the scan root itself: "@ + p@,
            },
    {
        match self {
            GuardError::NotFound(p) => String::from_str("no such path: ").concat(p.as_str()),
            GuardError::OutsideRoot { target, root } => String::from_str("refusing to touch ").concat(
                target.as_str(),
            ).concat(": outside the scan root ").concat(root.as_str()),
            GuardError::IsRoot(p) => String::from_str("refusing to delete the scan root itself: ").concat(
                p.as_str(),
            ),
        }
    }
}

/// Whether the daemon keeps listening after a request.
#[derive(Debug, Clone, Copy, PartialEq, Eq, Structural)]
pub enum Control {
    Continue,
    Shutdown,
}

/// What the daemon does with one request.
pub enum Step {
    /// Send this frame, then go on or stop.
    Answer { frame: Frame, control: Control },
    /// Resolve `root`, allowing the session root itself, and walk it.
    ScanWithin { root: Vec<u8> },
    /// Resolve `path` strictly beneath the session root and delete it.
    DeleteWithin { path: Vec<u8> },
}

/// The first decision on a request. A shutdown is acknowledged like a ping
/// before the daemon stops.
pub fn dispatch(request: Request) -> (s: Step)
    ensures
        match request {
            Request::Ping => s == (Step::Answer { frame: Frame::Pong, control: Control::Continue }),
            Request::Shutdown => s == (Step::Answer { frame: Frame::Pong, control: Control::Shutdown }),
            Request::Scan { root } => s matches Step::ScanWithin { root: r } && r@ == root@,
            Request::Delete { path } => s matches Step::DeleteWithin { path: p } && p@ == path@,
        },
{
    match request {
        Request::Ping => Step::Answer { frame: Frame::Pong, control: Control::Continue },
        Request::Shutdown => Step::Answer { frame: Frame::Pong, control: Control::Shutdown },
        Request::Scan { root } => Step::ScanWithin { root },
        Request::Delete { path } => Step::DeleteWithin { path },
    }
}

/// A path the guard refused, answered as an error frame.
pub fn refusal(e: &GuardError) -> (f: Frame)
    ensures
        f matches Frame::Error { message } && message@ == match e {
            GuardError::NotFound(p) => "no such path: "@ + p@,
            GuardError::OutsideRoot { target, root } => "refusing to touch "@ + target@
                + ": outside the scan root "@ + root@,
            GuardError::IsRoot(p) => "refusing to delete the scan root itself: "@ + p@,
        },
{
    Frame::Error { message: e.message() }
}

/// What the guard's answer leaves to do: work on the path it accepted, or
/// answer with the reason it refused. Scans and deletes both go this way.
pub fn guarded(resolved: Result<Vec<u8>, GuardError>) -> (r: Result<Vec<u8>, Frame>)
    ensures
        match resolved {
            Ok(p) => r matches Ok(q) && q@ == p@,
            Err(e) => r matches Err(Frame::Error { message }) && message@ == match e {
                GuardError::NotFound(p) => "no such path: "@ + p@,
                GuardError::OutsideRoot { target, root } => "refusing to touch "@ + target@
                    + ": outside the scan root "@ + root@,
                GuardError::IsRoot(p) => "refusing to delete the scan root itself: "@ + p@,
            },
        },
{
    match resolved {
        Ok(p) => Ok(p),
        Err(e) => Err(refusal(&e)),
    }
}

/// What opens a walk's stream: the root the request resolved to, which every
/// directory frame after it is keyed under.
pub fn scan_opening(resolved: &[u8]) -> (f: Frame)
    ensures
        f matches Frame::ScanStarted { root } && root@ == resolved@,
{
    Frame::ScanStarted { root: vstd::slice::slice_to_vec(resolved) }
}

/// What ends a walk: its summary, or an error followed by an empty summary
/// so that the host's stream still terminates.
pub fn scan_finished(result: Result<ScanStats, String>) -> (frames: Vec<Frame>)
    ensures
        match result {
            Ok(stats) => frames@ == seq![Frame::ScanDone(stats)],
            Err(m) => frames@.len() == 2 && (frames@[0] matches Frame::Error { message } && message@ == m@)
                && frames@[1] == Frame::ScanDone(
                ScanStats { files: 0, dirs: 0, total_size: 0, errors: 0, elapsed_ms: 0 },
            ),
        },
{
    match result {
        Ok(stats) => vec![Frame::ScanDone(stats)],
        Err(m) => vec![Frame::Error { message: m }, Frame::ScanDone(ScanStats::default())],
    }
}

/// The answer to a delete of the validated path `resolved`: how many entries
/// went, or why it failed.
pub fn delete_finished(resolved: &[u8], result: Result<u64, String>) -> (f: Frame)
    ensures
        match result {
            Ok(items) => f == Frame::Deleted { items },
            Err(e) => f matches Frame::Error { message } && message@ == "failed to delete "@ + utf8_lossy(
                resolved@,
            ) + ": "@ + e@,
        },
{
    match result {
        Ok(items) => Frame::Deleted { items },
        Err(e) => {
            let shown = lossy(resolved);
            Frame::Error {
                message: String::from_str("failed to delete ").concat(shown.as_str()).concat(": ").concat(
                    e.as_str(),
                ),
            }
        },
    }
}

} // verus!
