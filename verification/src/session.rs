//! One connection to the daemon on a phone: the names and commands that
//! start it, the decisions while waiting for it to answer, and what its
//! replies mean.
//!
//! The tunnel forwards to an abstract socket with a fresh random name per
//! session, so the daemon is not exposed to other apps and a stale daemon
//! from an earlier run cannot be mistaken for this one.

use vstd::prelude::*;
use crate::device::{AdbError, AdbErrorView};
use crate::protocol::Frame;
use crate::text::{lossy, utf8_lossy};
use rand::Rng;

verus! {

/// Host-side port for the tunnel. The device side is an abstract socket, so
/// this number only has to be free on the desktop.
pub const HOST_PORT: u16 = 5050;

/// How often the host asks a freshly started daemon whether it is up.
pub const PING_ATTEMPTS: u32 = 40;

/// A daemon running on a phone, reached through the tunnel.
pub struct Session {
    pub serial: String,
    pub socket_name: String,
    pub root: Vec<u8>,
}

#[verifier::external_type_specification]
#[verifier::external_body]
pub struct ExThreadRng(rand::rngs::ThreadRng);

/// Calls `rand::rng`, which hands out the thread's lazily seeded generator.
#[verifier::external_body]
fn thread_rng() -> rand::rngs::ThreadRng {
    rand::rng()
}

/// Calls `Rng::random_range` on `0..n`, which draws a number uniformly from
/// that range; it panics on an empty range, which `requires` leaves out. The
/// contract claims only that the number is in the range.
#[verifier::external_body]
fn random_below(rng: &mut rand::rngs::ThreadRng, n: usize) -> (r: usize)
    requires
        n > 0,
    ensures
        r < n,
{
    rng.random_range(0..n)
}

/// The characters a socket name is drawn from.
pub open spec fn name_alphabet() -> Seq<char> {
    "abcdefghijklmnopqrstuvwxyz0123456789"@
}

/// A name of the shape every session's socket has: the prefix, then sixteen
/// characters of the alphabet.
pub open spec fn is_socket_name(s: Seq<char>) -> bool {
    &&& s.len() == 28
    &&& s.subrange(0, 12) == "socketsweep-"@
    &&& forall|i: int| 12 <= i < 28 ==> name_alphabet().contains(#[trigger] s[i])
}

/// The socket name spelled by sixteen draws from the alphabet: the prefix,
/// then the drawn characters in order.
pub fn socket_name_from(draws: &Vec<usize>) -> (s: String)
    requires
        draws@.len() == 16,
        forall|k: int| 0 <= k < 16 ==> draws@[k] < 36,
    ensures
        s@ == "socketsweep-"@ + draws@.map_values(|d: usize| name_alphabet()[d as int]),
        is_socket_name(s@),
{
    let alphabet = "abcdefghijklmnopqrstuvwxyz0123456789";
    proof {
        reveal_strlit("abcdefghijklmnopqrstuvwxyz0123456789");
        reveal_strlit("socketsweep-");
    }
    let ghost spelled = draws@.map_values(|d: usize| name_alphabet()[d as int]);
    let mut name = String::from_str("socketsweep-");
    let mut k: usize = 0;
    while k < 16
        invariant
            alphabet@ == name_alphabet(),
            alphabet@.len() == 36,
            "socketsweep-"@.len() == 12,
            draws@.len() == 16,
            forall|q: int| 0 <= q < 16 ==> draws@[q] < 36,
            spelled == draws@.map_values(|d: usize| name_alphabet()[d as int]),
            k <= 16,
            name@ == "socketsweep-"@ + spelled.take(k as int),
        decreases 16 - k,
    {
        let i = draws[k];
        name.append(alphabet.substring_char(i, i + 1));
        proof {
            assert(spelled[k as int] == alphabet@[i as int]);
            assert(name@ =~= "socketsweep-"@ + spelled.take(k + 1));
        }
        k += 1;
    }
    proof {
        assert(spelled.take(16) =~= spelled);
        assert(name@.subrange(0, 12) =~= "socketsweep-"@);
        assert forall|j: int| 12 <= j < 28 implies name_alphabet().contains(#[trigger] name@[j]) by {
            assert(name@[j] == spelled[j - 12]);
            assert(name_alphabet()[draws@[j - 12] as int] == name@[j]);
        }
    }
    name
}

/// A fresh socket name: sixteen draws from the alphabet, spelled out by
/// `socket_name_from`. Random enough that two sessions cannot collide; not
/// a security boundary, which SELinux provides here.
pub fn random_socket_name() -> (s: String)
    ensures
        is_socket_name(s@),
{
    let mut rng = thread_rng();
    let mut draws: Vec<usize> = Vec::new();
    while draws.len() < 16
        invariant
            draws@.len() <= 16,
            forall|k: int| 0 <= k < draws@.len() ==> draws@[k] < 36,
        decreases 16 - draws@.len(),
    {
        let d = random_below(&mut rng, 36);
        draws.push(d);
    }
    socket_name_from(&draws)
}

/// Where the daemon binary is put on the phone.
pub open spec fn device_bin() -> Seq<char> {
    "/data/local/tmp/socketsweep-daemon"@
}

/// Kill any running daemon. The bracket around the first letter stops the
/// pattern from matching the shell that runs it, which pkill would otherwise
/// kill before ever reaching the daemon.
pub fn kill_command() -> (s: String)
    ensures
        s@ == "pkill -f '[s]ocketsweep-daemon'"@,
{
    String::from_str("pkill -f '[s]ocketsweep-daemon'")
}

/// Scoped Storage otherwise hides most of /sdcard from the shell user.
pub fn storage_command() -> (s: String)
    ensures
        s@ == "appops set com.android.shell MANAGE_EXTERNAL_STORAGE allow"@,
{
    String::from_str("appops set com.android.shell MANAGE_EXTERNAL_STORAGE allow")
}

pub fn chmod_command() -> (s: String)
    ensures
        s@ == "chmod 755 "@ + device_bin(),
{
    String::from_str("chmod 755 ").concat("/data/local/tmp/socketsweep-daemon")
}

pub fn cleanup_command() -> (s: String)
    ensures
        s@ == "rm -f "@ + device_bin(),
{
    String::from_str("rm -f ").concat("/data/local/tmp/socketsweep-daemon")
}

/// Start the daemon in the background, detached from the shell so it does
/// not die with it, listening on `socket_name` and serving `root`.
pub fn launch_command(socket_name: &str, root: &[u8]) -> (s: String)
    ensures
        s@ == "nohup "@ + device_bin() + " --socket "@ + socket_name@ + " --root "@ + utf8_lossy(root@)
            + " >/dev/null 2>&1 &"@,
{
    let root_text = lossy(root);
    String::from_str("nohup ").concat("/data/local/tmp/socketsweep-daemon").concat(" --socket ").concat(
        socket_name,
    ).concat(" --root ").concat(root_text.as_str()).concat(" >/dev/null 2>&1 &")
}

/// What to do after a ping of a freshly started daemon.
pub enum Probe {
    /// It answered.
    Ready,
    /// Wait a moment and ask again.
    Retry,
    GiveUp(AdbError),
}

/// The daemon needs a moment to bind its socket, so it is asked again
/// rather than waited on for a fixed, pessimistic time. `attempt` counts the
/// pings made so far, this one included.
pub fn after_ping(attempt: u32, outcome: Result<(), String>) -> (p: Probe)
    requires
        1 <= attempt <= PING_ATTEMPTS,
    ensures
        match outcome {
            Ok(()) => p is Ready,
            Err(e) => if attempt < PING_ATTEMPTS {
                p is Retry
            } else {
                p matches Probe::GiveUp(err) && err.view() == AdbErrorView::Device(
                    "The daemon was pushed and started but never answered on the tunnel. Last error: "@
                        + e@,
                )
            },
        },
{
    match outcome {
        Ok(()) => Probe::Ready,
        Err(e) => if attempt < PING_ATTEMPTS {
            Probe::Retry
        } else {
            Probe::GiveUp(
                AdbError::Device(
                    String::from_str(
                        "The daemon was pushed and started but never answered on the tunnel. Last error: ",
                    ).concat(e.as_str()),
                ),
            )
        },
    }
}

/// Why a request got no useful answer.
#[derive(Debug)]
pub enum NoAnswer {
    /// The daemon closed the connection without answering.
    Closed,
    /// The daemon refused, saying why.
    Refused(String),
    /// A frame that does not answer this request.
    Unexpected(Frame),
}

/// A ping is answered by `Pong` and nothing else.
pub fn ping_reply(reply: Option<Frame>) -> (r: Result<(), NoAnswer>)
    ensures
        match reply {
            None => r matches Err(NoAnswer::Closed),
            Some(Frame::Pong) => r is Ok,
            Some(f) => r matches Err(NoAnswer::Unexpected(g)) && g == f,
        },
{
    match reply {
        None => Err(NoAnswer::Closed),
        Some(Frame::Pong) => Ok(()),
        Some(f) => Err(NoAnswer::Unexpected(f)),
    }
}

/// A delete is answered by how many entries went, or by the daemon's
/// refusal.
pub fn delete_reply(reply: Option<Frame>) -> (r: Result<u64, NoAnswer>)
    ensures
        match reply {
            None => r matches Err(NoAnswer::Closed),
            Some(Frame::Deleted { items }) => r == Ok::<u64, NoAnswer>(items),
            Some(Frame::Error { message }) => r matches Err(NoAnswer::Refused(m)) && m@ == message@,
            Some(f) => r matches Err(NoAnswer::Unexpected(g)) && g == f,
        },
{
    match reply {
        None => Err(NoAnswer::Closed),
        Some(Frame::Deleted { items }) => Ok(items),
        Some(Frame::Error { message }) => Err(NoAnswer::Refused(message)),
        Some(f) => Err(NoAnswer::Unexpected(f)),
    }
}

/// A scan stream ends with its summary.
pub fn ends_scan(frame: &Frame) -> (r: bool)
    ensures
        r == (frame is ScanDone),
{
    match frame {
        Frame::ScanDone(_) => true,
        _ => false,
    }
}


/// How far starting the daemon has come: each stage is reached once its
/// step has been taken.
#[derive(Debug, Clone, Copy, PartialEq, Eq, Structural)]
pub enum StartStage {
    Begun,
    /// A daemon left over from an earlier run was told to stop.
    Killed,
    /// The shell user was given access to shared storage.
    StorageOpened,
    /// The daemon binary was copied to the phone.
    Pushed,
    Executable,
    /// The daemon was started in the background.
    Launched,
    /// The tunnel to its socket is open.
    Forwarded,
    /// Waiting for the daemon to answer a ping.
    Answering,
}

/// The next thing to ask of ADB while starting the daemon.
pub enum StartAction {
    /// A shell command whose failure is expected and ignored.
    ShellIgnoringErrors(String),
    /// A shell command that must succeed.
    Shell(String),
    /// Copy the daemon binary to this path on the phone.
    Push(String),
    /// Forward this host port to the abstract socket of this name.
    Forward { local_port: u16, name: String },
    /// Ask the daemon whether it is up.
    Ping,
}

/// The step that follows `done`, given how the step that reached `done`
/// went, for a daemon to listen on `socket_name` and serve `root`.
///
/// The order is: stop any stale daemon, open shared storage to the shell,
/// push the binary, make it executable, launch it, forward the tunnel, then
/// ping. Stopping a stale daemon, opening storage and launching may fail
/// unremarked: a daemon that did not start shows as one that never answers.
/// A failed push, chmod or forward ends the start with its error.
pub fn start_step(done: StartStage, outcome: Result<(), AdbError>, socket_name: &str, root: &[u8]) -> (r: Result<
    (StartStage, StartAction),
    AdbError,
>)
    ensures
        match done {
            StartStage::Begun => r matches Ok((StartStage::Killed, StartAction::ShellIgnoringErrors(c)))
                && c@ == "pkill -f '[s]ocketsweep-daemon'"@,
            StartStage::Killed => r matches Ok((StartStage::StorageOpened, StartAction::ShellIgnoringErrors(c)))
                && c@ == "appops set com.android.shell MANAGE_EXTERNAL_STORAGE allow"@,
            StartStage::StorageOpened => r matches Ok((StartStage::Pushed, StartAction::Push(p))) && p@
                == device_bin(),
            StartStage::Pushed => match outcome {
                Err(e) => r matches Err(f) && f.view() == e.view(),
                Ok(()) => r matches Ok((StartStage::Executable, StartAction::Shell(c))) && c@ == "chmod 755 "@
                    + device_bin(),
            },
            StartStage::Executable => match outcome {
                Err(e) => r matches Err(f) && f.view() == e.view(),
                Ok(()) => r matches Ok((StartStage::Launched, StartAction::ShellIgnoringErrors(c))) && c@
                    == "nohup "@ + device_bin() + " --socket "@ + socket_name@ + " --root "@ + utf8_lossy(
                    root@,
                ) + " >/dev/null 2>&1 &"@,
            },
            StartStage::Launched => r matches Ok(
                (StartStage::Forwarded, StartAction::Forward { local_port, name }),
            ) && local_port == HOST_PORT && name@ == socket_name@,
            StartStage::Forwarded => match outcome {
                Err(e) => r matches Err(f) && f.view() == e.view(),
                Ok(()) => r matches Ok((StartStage::Answering, StartAction::Ping)),
            },
            StartStage::Answering => r matches Ok((StartStage::Answering, StartAction::Ping)),
        },
{
    match done {
        StartStage::Begun => Ok((StartStage::Killed, StartAction::ShellIgnoringErrors(kill_command()))),
        StartStage::Killed => Ok((StartStage::StorageOpened, StartAction::ShellIgnoringErrors(storage_command()))),
        StartStage::StorageOpened => Ok(
            (StartStage::Pushed, StartAction::Push(String::from_str("/data/local/tmp/socketsweep-daemon"))),
        ),
        StartStage::Pushed => match outcome {
            Err(e) => Err(e),
            Ok(()) => Ok((StartStage::Executable, StartAction::Shell(chmod_command()))),
        },
        StartStage::Executable => match outcome {
            Err(e) => Err(e),
            Ok(()) => Ok((StartStage::Launched, StartAction::ShellIgnoringErrors(launch_command(socket_name, root)))),
        },
        StartStage::Launched => Ok(
            (
                StartStage::Forwarded,
                StartAction::Forward { local_port: HOST_PORT, name: socket_name.to_string() },
            ),
        ),
        StartStage::Forwarded => match outcome {
            Err(e) => Err(e),
            Ok(()) => Ok((StartStage::Answering, StartAction::Ping)),
        },
        StartStage::Answering => Ok((StartStage::Answering, StartAction::Ping)),
    }
}

} // verus!
