//! The per-directory fold of a filesystem walk.
//!
//! The walk itself runs in parallel over the device's storage; each time it
//! has read a directory it hands the children, as plain values, to
//! `Tally::read_dir`, which turns them into the entries of one directory
//! frame and counts them. Symlinks are skipped rather than followed: they
//! double-count storage and can form cycles.

use vstd::prelude::*;
use crate::arena::{frame_bytes, frame_dirs, frame_files};
use crate::protocol::{Entry, EntryKind, ScanStats};

verus! {

/// What a walk is asked to do.
pub struct ScanConfig {
    /// The directory to walk, as bytes.
    pub root: Vec<u8>,
    /// 0 uses one thread per core. The storage layer does not necessarily
    /// scale with core count, so measure on the target device before pinning a
    /// value.
    pub threads: usize,
    /// Guards against pathological nesting and symlink loops that survive the
    /// symlink skip (bind mounts, for instance).
    pub max_depth: usize,
}

impl ScanConfig {
    pub fn new(root: Vec<u8>) -> (c: Self)
        ensures
            c.root@ == root@,
            c.threads == 0,
            c.max_depth == 64,
    {
        ScanConfig { root, threads: 0, max_depth: 64 }
    }
}

/// One child of a directory, as the walk saw it.
pub enum Child {
    /// The walk could not read this entry at all.
    Unreadable,
    Symlink { name: Vec<u8> },
    Dir { name: Vec<u8> },
    /// A file and its byte length, or `None` where its metadata could not be
    /// read.
    File { name: Vec<u8>, size: Option<u64> },
}

/// The counters of a walk. They wrap on overflow, as the atomic counters
/// they stand for do.
#[derive(Debug, Clone, Copy)]
pub struct Tally {
    pub files: u64,
    pub dirs: u64,
    pub total_size: u64,
    pub errors: u64,
}

/// `x` reduced to the range of a `u64`.
pub open spec fn wrapped(x: int) -> int {
    x % 0x1_0000_0000_0000_0000
}

/// The entry a child becomes, as (name, size, kind); none for a child that
/// could not be read or is a symlink.
pub open spec fn child_entry(c: Child) -> Option<(Seq<u8>, u64, EntryKind)> {
    match c {
        Child::Unreadable => None,
        Child::Symlink { .. } => None,
        Child::Dir { name } => Some((name@, 0u64, EntryKind::Dir)),
        Child::File { name, size } => Some(
            (
                name@,
                match size {
                    Some(s) => s,
                    None => 0u64,
                },
                EntryKind::File,
            ),
        ),
    }
}

/// The entries a directory's children become, in order.
pub open spec fn listed(cs: Seq<Child>) -> Seq<(Seq<u8>, u64, EntryKind)>
    decreases cs.len(),
{
    if cs.len() == 0 {
        Seq::empty()
    } else {
        let rest = listed(cs.drop_last());
        match child_entry(cs.last()) {
            Some(e) => rest.push(e),
            None => rest,
        }
    }
}

pub open spec fn entry_triple(e: Entry) -> (Seq<u8>, u64, EntryKind) {
    (e.name@, e.size, e.kind)
}

pub open spec fn child_files(c: Child) -> int {
    if c is File {
        1
    } else {
        0
    }
}

pub open spec fn child_dirs(c: Child) -> int {
    if c is Dir {
        1
    } else {
        0
    }
}

pub open spec fn child_bytes(c: Child) -> int {
    match c {
        Child::File { size: Some(s), .. } => s as int,
        _ => 0,
    }
}

/// An unreadable entry, or a file whose size could not be read.
pub open spec fn child_errors(c: Child) -> int {
    match c {
        Child::Unreadable => 1,
        Child::File { size: None, .. } => 1,
        _ => 0,
    }
}

/// `f` added up over `cs`.
pub open spec fn total(cs: Seq<Child>, f: spec_fn(Child) -> int) -> int
    decreases cs.len(),
{
    if cs.len() == 0 {
        0
    } else {
        total(cs.drop_last(), f) + f(cs.last())
    }
}

proof fn lemma_wrapped_step(a: int, d: int)
    ensures
        wrapped(wrapped(a) + d) == wrapped(a + d),
{
    vstd::arithmetic::div_mod::lemma_add_mod_noop_right(d, a, 0x1_0000_0000_0000_0000);
}

fn add_wrapped(x: u64, d: u64) -> (r: u64)
    ensures
        r == wrapped(x + d),
{
    x.wrapping_add(d)
}

impl Tally {
    /// A fresh walk. The root counts as a directory.
    pub fn new() -> (t: Self)
        ensures
            t.files == 0,
            t.dirs == 1,
            t.total_size == 0,
            t.errors == 0,
    {
        Tally { files: 0, dirs: 1, total_size: 0, errors: 0 }
    }

    /// Fold one directory's children into the counters and return the
    /// entries of its frame.
    pub fn read_dir(&mut self, children: &Vec<Child>) -> (entries: Vec<Entry>)
        ensures
            entries@.map_values(|e: Entry| entry_triple(e)) == listed(children@),
            final(self).files == wrapped(old(self).files + total(children@, |c: Child| child_files(c))),
            final(self).dirs == wrapped(old(self).dirs + total(children@, |c: Child| child_dirs(c))),
            final(self).total_size == wrapped(
                old(self).total_size + total(children@, |c: Child| child_bytes(c)),
            ),
            final(self).errors == wrapped(old(self).errors + total(children@, |c: Child| child_errors(c))),
    {
        let ghost t0 = *self;
        let ghost ff = |c: Child| child_files(c);
        let ghost fd = |c: Child| child_dirs(c);
        let ghost fb = |c: Child| child_bytes(c);
        let ghost fe = |c: Child| child_errors(c);
        let mut entries: Vec<Entry> = Vec::new();
        let mut i: usize = 0;
        proof {
            assert(children@.take(0) =~= Seq::<Child>::empty());
        }
        while i < children.len()
            invariant
                i <= children@.len(),
                entries@.map_values(|e: Entry| entry_triple(e)) == listed(children@.take(i as int)),
                self.files == wrapped(t0.files + total(children@.take(i as int), ff)),
                self.dirs == wrapped(t0.dirs + total(children@.take(i as int), fd)),
                self.total_size == wrapped(t0.total_size + total(children@.take(i as int), fb)),
                self.errors == wrapped(t0.errors + total(children@.take(i as int), fe)),
                ff == (|c: Child| child_files(c)),
                fd == (|c: Child| child_dirs(c)),
                fb == (|c: Child| child_bytes(c)),
                fe == (|c: Child| child_errors(c)),
            decreases children@.len() - i,
        {
            let ghost pre = children@.take(i as int);
            let ghost c = children@[i as int];
            let ghost before = entries@;
            let ghost s0 = *self;
            proof {
                assert(children@.take(i + 1).drop_last() =~= pre);
                assert(children@.take(i + 1).last() == c);
                lemma_wrapped_step(t0.files + total(pre, ff), ff(c));
                lemma_wrapped_step(t0.dirs + total(pre, fd), fd(c));
                lemma_wrapped_step(t0.total_size + total(pre, fb), fb(c));
                lemma_wrapped_step(t0.errors + total(pre, fe), fe(c));
            }
            match &children[i] {
                Child::Unreadable => {
                    self.errors = add_wrapped(self.errors, 1);
                },
                Child::Symlink { .. } => {},
                Child::Dir { name } => {
                    self.dirs = add_wrapped(self.dirs, 1);
                    entries.push(Entry { name: name.clone(), size: 0, kind: EntryKind::Dir });
                },
                Child::File { name, size } => {
                    let bytes = match size {
                        Some(s) => *s,
                        None => {
                            self.errors = add_wrapped(self.errors, 1);
                            0
                        },
                    };
                    self.files = add_wrapped(self.files, 1);
                    self.total_size = add_wrapped(self.total_size, bytes);
                    entries.push(Entry { name: name.clone(), size: bytes, kind: EntryKind::File });
                },
            }
            proof {
                let m = |e: Entry| entry_triple(e);
                if entries@.len() > before.len() {
                    assert(entries@ =~= before.push(entries@.last()));
                    assert(entries@.map_values(m) =~= before.map_values(m).push(m(entries@.last())));
                } else {
                    assert(entries@ =~= before);
                }
            }
            i += 1;
        }
        proof {
            assert(children@.take(children@.len() as int) =~= children@);
        }
        entries
    }

    /// A directory the walk could not open at all. Its entry was still
    /// reported by its parent, so the tree stays consistent.
    pub fn walk_error(&mut self)
        ensures
            final(self).files == old(self).files,
            final(self).dirs == old(self).dirs,
            final(self).total_size == old(self).total_size,
            final(self).errors == wrapped(old(self).errors + 1),
    {
        self.errors = add_wrapped(self.errors, 1);
    }

    /// The summary a finished walk reports.
    pub fn stats(&self, elapsed_ms: u64) -> (s: ScanStats)
        ensures
            s == (ScanStats {
                files: self.files,
                dirs: self.dirs,
                total_size: self.total_size,
                errors: self.errors,
                elapsed_ms,
            }),
    {
        ScanStats {
            files: self.files,
            dirs: self.dirs,
            total_size: self.total_size,
            errors: self.errors,
            elapsed_ms,
        }
    }
}


/// The daemon's counters and the host's totals agree frame by frame: the
/// entries a directory read yields carry exactly the bytes, files and
/// directories the read counted. Folding those entries into the tree adds
/// the same amounts to its totals, so the two aggregations cross-check.
pub proof fn law_entries_carry_what_was_counted(cs: Seq<Child>, es: Seq<Entry>)
    requires
        es.map_values(|e: Entry| entry_triple(e)) == listed(cs),
    ensures
        frame_bytes(es) == total(cs, |c: Child| child_bytes(c)),
        frame_files(es) == total(cs, |c: Child| child_files(c)),
        frame_dirs(es) == total(cs, |c: Child| child_dirs(c)),
    decreases cs.len(),
{
    let m = |e: Entry| entry_triple(e);
    if cs.len() == 0 {
        assert(es.len() == es.map_values(m).len());
    } else {
        let rest = cs.drop_last();
        let c = cs.last();
        match child_entry(c) {
            None => {
                law_entries_carry_what_was_counted(rest, es);
            },
            Some(e) => {
                assert(es.map_values(m).len() == es.len());
                let front = es.drop_last();
                assert(front.map_values(m) =~= listed(rest)) by {
                    assert(listed(cs) == listed(rest).push(e));
                    assert forall|i: int| 0 <= i < front.len() implies #[trigger] front.map_values(m)[i]
                        == listed(rest)[i] by {
                        assert(es.map_values(m)[i] == m(es[i]));
                    }
                }
                assert(m(es.last()) == e) by {
                    assert(es.map_values(m)[es.len() - 1] == m(es[es.len() - 1]));
                }
                law_entries_carry_what_was_counted(rest, front);
            },
        }
    }
}


/// A counter after the reads `reads` are tallied in turn, from `c`: what
/// `Tally::read_dir` leaves in each of its counters, `f` being the count
/// that counter keeps of a child.
pub open spec fn folded(c: int, reads: Seq<Seq<Child>>, f: spec_fn(Child) -> int) -> int
    decreases reads.len(),
{
    if reads.len() == 0 {
        c
    } else {
        wrapped(folded(c, reads.drop_last(), f) + total(reads.last(), f))
    }
}

/// `f` added up over every read.
pub open spec fn reads_total(reads: Seq<Seq<Child>>, f: spec_fn(Child) -> int) -> int
    decreases reads.len(),
{
    if reads.len() == 0 {
        0
    } else {
        reads_total(reads.drop_last(), f) + total(reads.last(), f)
    }
}

proof fn lemma_folded_is_sum(c: int, reads: Seq<Seq<Child>>, f: spec_fn(Child) -> int)
    requires
        0 <= c < 0x1_0000_0000_0000_0000,
    ensures
        folded(c, reads, f) == wrapped(c + reads_total(reads, f)),
    decreases reads.len(),
{
    if reads.len() == 0 {
        vstd::arithmetic::div_mod::lemma_small_mod(c as nat, 0x1_0000_0000_0000_0000);
    } else {
        lemma_folded_is_sum(c, reads.drop_last(), f);
        lemma_wrapped_step(c + reads_total(reads.drop_last(), f), total(reads.last(), f));
    }
}

proof fn lemma_reads_total_remove(s: Seq<Seq<Child>>, i: int, f: spec_fn(Child) -> int)
    requires
        0 <= i < s.len(),
    ensures
        reads_total(s, f) == reads_total(s.remove(i), f) + total(s[i], f),
    decreases s.len(),
{
    if i == s.len() - 1 {
        assert(s.remove(i) =~= s.drop_last());
    } else {
        assert(s.remove(i).drop_last() =~= s.drop_last().remove(i));
        assert(s.remove(i).last() == s.last());
        lemma_reads_total_remove(s.drop_last(), i, f);
    }
}

proof fn lemma_reads_total_permuted(a: Seq<Seq<Child>>, b: Seq<Seq<Child>>, f: spec_fn(Child) -> int)
    requires
        a.to_multiset() == b.to_multiset(),
    ensures
        reads_total(a, f) == reads_total(b, f),
    decreases a.len(),
{
    broadcast use vstd::seq_lib::group_to_multiset_ensures;
    broadcast use vstd::multiset::group_multiset_axioms;

    if a.len() == 0 {
        assert(b.to_multiset().len() == 0);
    } else {
        let x = a.last();
        let front = a.drop_last();
        assert(a =~= front.push(x));
        assert(a.to_multiset().count(x) > 0);
        assert(b.contains(x));
        let i = choose|i: int| 0 <= i < b.len() && b[i] == x;
        assert(b.remove(i).to_multiset() =~= front.to_multiset());
        lemma_reads_total_permuted(front, b.remove(i), f);
        lemma_reads_total_remove(b, i, f);
    }
}

/// The totals of a walk do not depend on the order in which the walk's
/// threads hand in their directories: tallying the same reads in any order
/// leaves every counter the same.
pub proof fn law_tally_is_order_free(
    c: int,
    first: Seq<Seq<Child>>,
    second: Seq<Seq<Child>>,
    f: spec_fn(Child) -> int,
)
    requires
        0 <= c < 0x1_0000_0000_0000_0000,
        first.to_multiset() == second.to_multiset(),
    ensures
        folded(c, first, f) == folded(c, second, f),
{
    lemma_folded_is_sum(c, first, f);
    lemma_folded_is_sum(c, second, f);
    lemma_reads_total_permuted(first, second, f);
}

} // verus!
