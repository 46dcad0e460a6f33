//! Wire format shared by the on-device daemon and the desktop host.
//!
//! Every message is a little-endian `u32` byte length followed by that many
//! bytes of body. The body encoding of the values below is done by the
//! application layer; this module owns the values and the framing, which is
//! where a corrupt stream has to be caught.
//!
//! Paths and names are bytes, not strings: Android filenames are arbitrary
//! byte sequences, and a path mangled in transit could come back as a delete
//! target.

use vstd::prelude::*;

verus! {

/// Upper bound on a single frame body, so a corrupt length prefix cannot make
/// the reader allocate wildly.
pub const MAX_FRAME_BYTES: u32 = 64 * 1024 * 1024;

/// Host to daemon.
#[derive(Debug, Clone, PartialEq, Eq)]
pub enum Request {
    Ping,
    /// Walk `root` and stream `Frame::Dir` until `Frame::ScanDone`.
    Scan { root: Vec<u8> },
    /// Recursively delete `path`. The daemon validates it against the session
    /// root and refuses anything outside.
    Delete { path: Vec<u8> },
    Shutdown,
}

/// Daemon to host. A scan produces many `Dir` frames then one `ScanDone`.
#[derive(Debug, Clone, PartialEq, Eq)]
pub enum Frame {
    Pong,
    /// Opens a scan stream, carrying the root the daemon resolved to.
    ScanStarted { root: Vec<u8> },
    /// The contents of one directory. A directory is discovered while reading
    /// its parent, so the frame naming it as an entry always precedes the
    /// frame describing its contents.
    Dir { path: Vec<u8>, entries: Vec<Entry> },
    ScanDone(ScanStats),
    Deleted { items: u64 },
    Error { message: String },
}

#[derive(Debug, Clone, PartialEq, Eq)]
pub struct Entry {
    pub name: Vec<u8>,
    /// Byte length for files. Always 0 for directories: the host aggregates
    /// subtree totals as frames arrive.
    pub size: u64,
    pub kind: EntryKind,
}

#[derive(Debug, Clone, Copy, PartialEq, Eq, Structural)]
pub enum EntryKind {
    File,
    Dir,
}

#[derive(Debug, Clone, Copy, PartialEq, Eq, Structural)]
pub struct ScanStats {
    pub files: u64,
    pub dirs: u64,
    pub total_size: u64,
    /// Entries that could not be read, almost always permission denied.
    pub errors: u64,
    pub elapsed_ms: u64,
}

impl Default for ScanStats {
    fn default() -> (s: Self)
        ensures
            s == (ScanStats { files: 0, dirs: 0, total_size: 0, errors: 0, elapsed_ms: 0 }),
    {
        ScanStats { files: 0, dirs: 0, total_size: 0, errors: 0, elapsed_ms: 0 }
    }
}

/// What the framing layer refuses.
#[derive(Debug, Clone, PartialEq, Eq, Structural)]
pub enum FrameError {
    /// A body of this many bytes does not fit under `MAX_FRAME_BYTES`.
    TooLarge { len: usize },
    /// A length prefix announced more than `MAX_FRAME_BYTES`.
    OversizedPrefix { len: u32 },
    /// The stream ended part-way through a body of this announced length.
    Truncated { len: u32 },
    /// The stream ended part-way through a length prefix, after this many of
    /// its four bytes.
    ShortPrefix { len: usize },
}

/// The four little-endian bytes of `n`.
pub open spec fn le32(n: u32) -> Seq<u8> {
    seq![(n % 256) as u8, ((n / 256) % 256) as u8, ((n / 65536) % 256) as u8, (n / 16777216) as u8]
}

/// The value of four little-endian bytes.
pub open spec fn from_le32(b: Seq<u8>) -> int
    recommends
        b.len() >= 4,
{
    b[0] + 256 * b[1] + 65536 * b[2] + 16777216 * b[3]
}

/// A framed message: the length prefix followed by the body.
pub open spec fn framed(body: Seq<u8>) -> Seq<u8> {
    le32(body.len() as u32) + body
}

/// What reading one frame from the front of `buf` yields: `None` at a clean
/// end of stream (no byte left), an error for a stream that ends part-way
/// through a frame, its prefix included, otherwise the body and the number of
/// bytes it took up.
pub open spec fn spec_decode(buf: Seq<u8>) -> Result<Option<(Seq<u8>, int)>, FrameError> {
    if buf.len() == 0 {
        Ok(None)
    } else if buf.len() < 4 {
        Err(FrameError::ShortPrefix { len: buf.len() as usize })
    } else {
        let len = from_le32(buf);
        if len > MAX_FRAME_BYTES {
            Err(FrameError::OversizedPrefix { len: len as u32 })
        } else if buf.len() - 4 < len {
            Err(FrameError::Truncated { len: len as u32 })
        } else {
            Ok(Some((buf.subrange(4, 4 + len), 4 + len)))
        }
    }
}

pub proof fn lemma_le32_round_trip(n: u32)
    ensures
        from_le32(le32(n)) == n,
        le32(n).len() == 4,
{
    let b0 = n % 256;
    let q0 = n / 256;
    let b1 = q0 % 256;
    let q1 = q0 / 256;
    let b2 = q1 % 256;
    let b3 = q1 / 256;
    assert(n / 65536 == q1) by (nonlinear_arith)
        requires q0 == n / 256, q1 == q0 / 256;
    assert(n / 16777216 == b3) by (nonlinear_arith)
        requires q0 == n / 256, q1 == q0 / 256, b3 == q1 / 256;
    assert(b3 < 256) by (nonlinear_arith)
        requires q0 == n / 256, q1 == q0 / 256, b3 == q1 / 256, n < 0x1_0000_0000;
    assert(n == b0 + 256 * b1 + 65536 * b2 + 16777216 * b3) by (nonlinear_arith)
        requires b0 == n % 256, q0 == n / 256, b1 == q0 % 256, q1 == q0 / 256,
            b2 == q1 % 256, b3 == q1 / 256;
}

/// Frame one message body.
///
/// Refuses a body that would not fit under `MAX_FRAME_BYTES`, as the writer
/// must: a reader would reject the frame anyway, and the stream behind it
/// would be lost.
pub fn encode_frame(body: &[u8]) -> (r: Result<Vec<u8>, FrameError>)
    ensures
        body@.len() <= MAX_FRAME_BYTES ==> r == Ok::<Vec<u8>, FrameError>(r->Ok_0) && r->Ok_0@
            == framed(body@),
        body@.len() > MAX_FRAME_BYTES ==> r == Err::<Vec<u8>, FrameError>(
            FrameError::TooLarge { len: body.len() },
        ),
{
    if body.len() > MAX_FRAME_BYTES as usize {
        return Err(FrameError::TooLarge { len: body.len() });
    }
    let n = body.len() as u32;
    let mut out: Vec<u8> = Vec::with_capacity(body.len() + 4);
    out.push((n % 256) as u8);
    out.push(((n / 256) % 256) as u8);
    out.push(((n / 65536) % 256) as u8);
    proof {
        lemma_le32_round_trip(n);
    }
    out.push((n / 16777216) as u8);
    let mut i: usize = 0;
    while i < body.len()
        invariant
            i <= body@.len(),
            n == body@.len(),
            out@ == le32(n) + body@.subrange(0, i as int),
        decreases body@.len() - i,
    {
        out.push(body[i]);
        i = i + 1;
        assert(out@ =~= le32(n) + body@.subrange(0, i as int));
    }
    assert(body@.subrange(0, body@.len() as int) =~= body@);
    Ok(out)
}

/// Read one frame from the front of `buf`.
///
/// `Ok(None)` is a clean end of stream: the peer closed between frames, which
/// is normal shutdown. A prefix over the limit is refused before anything is
/// allocated for it, and a prefix or a body cut short is an error rather than
/// a silent end.
pub fn decode_frame(buf: &[u8]) -> (r: Result<Option<(Vec<u8>, usize)>, FrameError>)
    ensures
        match (r, spec_decode(buf@)) {
            (Ok(None), Ok(None)) => true,
            (Ok(Some((body, used))), Ok(Some((b, u)))) => body@ == b && used == u,
            (Err(e), Err(f)) => e == f,
            _ => false,
        },
{
    if buf.len() == 0 {
        return Ok(None);
    }
    if buf.len() < 4 {
        return Err(FrameError::ShortPrefix { len: buf.len() });
    }
    let len: u32 = buf[0] as u32 + 256 * (buf[1] as u32) + 65536 * (buf[2] as u32) + 16777216 * (
    buf[3] as u32);
    if len > MAX_FRAME_BYTES {
        return Err(FrameError::OversizedPrefix { len });
    }
    if buf.len() - 4 < len as usize {
        return Err(FrameError::Truncated { len });
    }
    let end: usize = 4 + len as usize;
    let mut body: Vec<u8> = Vec::with_capacity(len as usize);
    let mut i: usize = 4;
    while i < end
        invariant
            4 <= i <= end <= buf@.len(),
            body@ == buf@.subrange(4, i as int),
        decreases end - i,
    {
        body.push(buf[i]);
        i = i + 1;
        assert(body@ =~= buf@.subrange(4, i as int));
    }
    Ok(Some((body, end)))
}

/// Reading back a framed body, whatever follows it in the stream, yields that
/// body and consumes exactly its frame: frames stream back one by one, in the
/// order they were written.
pub proof fn law_frame_round_trip(body: Seq<u8>, rest: Seq<u8>)
    requires
        body.len() <= MAX_FRAME_BYTES,
    ensures
        spec_decode(framed(body) + rest) == Ok::<Option<(Seq<u8>, int)>, FrameError>(
            Some((body, 4 + body.len() as int)),
        ),
{
    let n = body.len() as u32;
    lemma_le32_round_trip(n);
    let buf = framed(body) + rest;
    assert(buf.subrange(0, 4) =~= le32(n));
    assert(from_le32(buf) == from_le32(le32(n)));
    assert(buf.subrange(4, 4 + body.len() as int) =~= body);
}

} // verus!
