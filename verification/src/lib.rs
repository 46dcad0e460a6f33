//! SocketSweep: the verified core of an Android storage analyser.
//!
//! The daemon on the phone walks the filesystem and streams one frame per
//! directory; the desktop host folds those frames into a flat arena of nodes
//! and answers small queries against it. This crate holds the parts of that
//! pipeline that compute rather than talk: the wire framing, the path guard
//! that authorises deletes, the per-directory fold the scanner performs, the
//! arena and its queries, and the decisions the host takes about devices and
//! sessions.

pub mod protocol;
pub mod text;
pub mod guard;
pub mod arena;
pub mod scan;
pub mod daemon;
pub mod device;
pub mod session;
pub mod host;
pub mod history;
