//! Path validation for destructive operations.
//!
//! The only place a delete is authorised. The daemon resolves both paths on
//! the device (canonicalisation follows symlinks and `..`, which needs the
//! filesystem) and hands the results here, where the decision is made by
//! comparing whole path components: a plain byte-prefix test would let
//! `/sdcard/Downloads` pass a `/sdcard/Down` root.

use vstd::prelude::*;
use crate::text::{bytes_equal, lossy, utf8_lossy};

verus! {

pub const SLASH: u8 = 0x2f;
pub const DOT: u8 = 0x2e;

/// One component of a Unix path, as `std::path::Component` sees it.
pub enum Comp {
    Root,
    Cur,
    Parent,
    Normal(Seq<u8>),
}

/// The runs of bytes between separators, empty runs included.
pub open spec fn segments(p: Seq<u8>) -> Seq<Seq<u8>>
    decreases p.len(),
{
    if p.len() == 0 {
        seq![Seq::<u8>::empty()]
    } else {
        let s = segments(p.drop_last());
        if p.last() == SLASH {
            s.push(Seq::<u8>::empty())
        } else {
            s.update(s.len() - 1, s.last().push(p.last()))
        }
    }
}

/// What one segment contributes. Empty segments (repeated or trailing
/// separators) and `.` vanish, except that a relative path that begins with
/// `.` keeps it as its first component.
pub open spec fn seg_comp(seg: Seq<u8>, leading: bool) -> Option<Comp> {
    if seg.len() == 0 {
        None
    } else if seg == seq![DOT] {
        if leading {
            Some(Comp::Cur)
        } else {
            None
        }
    } else if seg == seq![DOT, DOT] {
        Some(Comp::Parent)
    } else {
        Some(Comp::Normal(seg))
    }
}

pub open spec fn seg_comps(ss: Seq<Seq<u8>>, absolute: bool) -> Seq<Comp>
    decreases ss.len(),
{
    if ss.len() == 0 {
        seq![]
    } else {
        let rest = seg_comps(ss.drop_last(), absolute);
        match seg_comp(ss.last(), ss.len() == 1 && !absolute) {
            Some(c) => rest.push(c),
            None => rest,
        }
    }
}

pub open spec fn is_absolute(p: Seq<u8>) -> bool {
    p.len() > 0 && p[0] == SLASH
}

/// The components of a path, normalised the way `Path::components` does.
pub open spec fn components(p: Seq<u8>) -> Seq<Comp> {
    (if is_absolute(p) {
        seq![Comp::Root]
    } else {
        seq![]
    }) + seg_comps(segments(p), is_absolute(p))
}

/// `Path::starts_with`: the components of `base` begin the components of `p`.
pub open spec fn path_starts_with(p: Seq<u8>, base: Seq<u8>) -> bool {
    components(base).len() <= components(p).len() && components(p).subrange(
        0,
        components(base).len() as int,
    ) == components(base)
}

/// Path equality, which `Path` also decides by components.
pub open spec fn path_eq(a: Seq<u8>, b: Seq<u8>) -> bool {
    components(a) == components(b)
}

pub proof fn lemma_segments_nonempty(p: Seq<u8>)
    ensures
        segments(p).len() >= 1,
    decreases p.len(),
{
    if p.len() > 0 {
        lemma_segments_nonempty(p.drop_last());
    }
}

/// An executable path component.
pub enum Component {
    RootDir,
    CurDir,
    ParentDir,
    Normal(Vec<u8>),
}

impl Component {
    pub open spec fn view(&self) -> Comp {
        match self {
            Component::RootDir => Comp::Root,
            Component::CurDir => Comp::Cur,
            Component::ParentDir => Comp::Parent,
            Component::Normal(v) => Comp::Normal(v@),
        }
    }
}

pub open spec fn comps_view(cs: Seq<Component>) -> Seq<Comp> {
    cs.map_values(|c: Component| c.view())
}

fn segment_component(seg: Vec<u8>, leading: bool) -> (r: Option<Component>)
    ensures
        match (r, seg_comp(seg@, leading)) {
            (None, None) => true,
            (Some(c), Some(d)) => c.view() == d,
            _ => false,
        },
{
    if seg.len() == 0 {
        None
    } else if seg.len() == 1 && seg[0] == DOT {
        assert(seg@ =~= seq![DOT]);
        if leading {
            Some(Component::CurDir)
        } else {
            None
        }
    } else if seg.len() == 2 && seg[0] == DOT && seg[1] == DOT {
        assert(seg@ =~= seq![DOT, DOT]);
        Some(Component::ParentDir)
    } else {
        assert(seg@ != seq![DOT]);
        assert(seg@ != seq![DOT, DOT]);
        Some(Component::Normal(seg))
    }
}

/// Split a path into its components.
pub fn path_components(p: &[u8]) -> (r: Vec<Component>)
    ensures
        comps_view(r@) == components(p@),
{
    let absolute = p.len() > 0 && p[0] == SLASH;
    let mut out: Vec<Component> = Vec::new();
    if absolute {
        out.push(Component::RootDir);
    }
    let ghost prefix = if absolute {
        seq![Comp::Root]
    } else {
        seq![]
    };
    assert(comps_view(out@) =~= prefix);
    let mut cur: Vec<u8> = Vec::new();
    let mut done: usize = 0;
    let mut i: usize = 0;
    proof {
        assert(p@.subrange(0, 0) =~= Seq::<u8>::empty());
    }
    while i < p.len()
        invariant
            i <= p@.len(),
            done <= i,
            absolute == is_absolute(p@),
            segments(p@.subrange(0, i as int)).len() == done + 1,
            cur@ == segments(p@.subrange(0, i as int)).last(),
            comps_view(out@) == prefix + seg_comps(
                segments(p@.subrange(0, i as int)).drop_last(),
                absolute,
            ),
        decreases p@.len() - i,
    {
        let ghost before = segments(p@.subrange(0, i as int));
        let b = p[i];
        let ghost next_prefix = p@.subrange(0, i + 1);
        assert(next_prefix.drop_last() =~= p@.subrange(0, i as int));
        assert(next_prefix.last() == b);
        if b == SLASH {
            let ghost seg_v = cur@;
            let seg = cur;
            cur = Vec::new();
            let leading = done == 0 && !absolute;
            let c = segment_component(seg, leading);
            let ghost after = segments(next_prefix);
            assert(after == before.push(Seq::<u8>::empty()));
            assert(after.drop_last() =~= before);
            let ghost old_out = comps_view(out@);
            assert(seg_comps(before, absolute) == match seg_comp(seg_v, leading) {
                Some(cc) => seg_comps(before.drop_last(), absolute).push(cc),
                None => seg_comps(before.drop_last(), absolute),
            });
            match c {
                Some(comp) => {
                    out.push(comp);
                    assert(comps_view(out@) =~= old_out.push(comp.view()));
                },
                None => {},
            }
            assert(comps_view(out@) =~= prefix + seg_comps(after.drop_last(), absolute));
            done = done + 1;
        } else {
            cur.push(b);
            let ghost after = segments(next_prefix);
            assert(after == before.update(before.len() - 1, before.last().push(b)));
            assert(after.drop_last() =~= before.drop_last());
        }
        i = i + 1;
    }
    proof {
        assert(p@.subrange(0, p@.len() as int) =~= p@);
    }
    let ghost all = segments(p@);
    let ghost seg_v = cur@;
    let leading = done == 0 && !absolute;
    let c = segment_component(cur, leading);
    let ghost old_out = comps_view(out@);
    assert(seg_comps(all, absolute) == match seg_comp(seg_v, leading) {
        Some(cc) => seg_comps(all.drop_last(), absolute).push(cc),
        None => seg_comps(all.drop_last(), absolute),
    });
    match c {
        Some(comp) => {
            out.push(comp);
            assert(comps_view(out@) =~= old_out.push(comp.view()));
        },
        None => {},
    }
    assert(comps_view(out@) =~= prefix + seg_comps(all, absolute));
    out
}

fn comp_eq(a: &Component, b: &Component) -> (r: bool)
    ensures
        r == (a.view() == b.view()),
{
    match a {
        Component::RootDir => matches!(b, Component::RootDir),
        Component::CurDir => matches!(b, Component::CurDir),
        Component::ParentDir => matches!(b, Component::ParentDir),
        Component::Normal(x) => match b {
            Component::Normal(y) => bytes_equal(x.as_slice(), y.as_slice()),
            _ => false,
        },
    }
}

/// Whether the first `base.len()` components of `p` are those of `base`, and
/// `p` has at least as many.
fn comps_start_with(p: &Vec<Component>, base: &Vec<Component>) -> (r: bool)
    ensures
        r == (base@.len() <= p@.len() && comps_view(p@).subrange(0, base@.len() as int)
            == comps_view(base@)),
{
    if base.len() > p.len() {
        return false;
    }
    let mut k: usize = 0;
    while k < base.len()
        invariant
            base@.len() <= p@.len(),
            k <= base@.len(),
            forall|m: int| 0 <= m < k ==> p@[m].view() == base@[m].view(),
        decreases base@.len() - k,
    {
        if !comp_eq(&p[k], &base[k]) {
            assert(comps_view(p@).subrange(0, base@.len() as int)[k as int] != comps_view(
                base@,
            )[k as int]);
            return false;
        }
        k = k + 1;
    }
    assert(comps_view(p@).subrange(0, base@.len() as int) =~= comps_view(base@));
    true
}

/// `Path::starts_with` on byte paths.
pub fn starts_with(p: &[u8], base: &[u8]) -> (r: bool)
    ensures
        r == path_starts_with(p@, base@),
{
    let pc = path_components(p);
    let bc = path_components(base);
    comps_start_with(&pc, &bc)
}

/// Path equality on byte paths, component by component.
pub fn same_path(a: &[u8], b: &[u8]) -> (r: bool)
    ensures
        r == path_eq(a@, b@),
{
    let ac = path_components(a);
    let bc = path_components(b);
    let r = ac.len() == bc.len() && comps_start_with(&ac, &bc);
    assert(comps_view(ac@).subrange(0, ac@.len() as int) =~= comps_view(ac@));
    assert(r ==> comps_view(ac@) =~= comps_view(bc@));
    assert(comps_view(ac@) == comps_view(bc@) ==> ac@.len() == bc@.len());
    r
}

} // verus!

verus! {

#[derive(Debug, PartialEq, Eq)]
pub enum GuardError {
    /// The path does not exist, or a component of it is unreadable.
    NotFound(String),
    /// Resolved to somewhere outside the session root.
    OutsideRoot { target: String, root: String },
    /// Refusing to delete the directory the session is rooted at.
    IsRoot(String),
}

/// A `GuardError` with its texts as character sequences.
pub enum GuardErrorView {
    NotFound(Seq<char>),
    OutsideRoot { target: Seq<char>, root: Seq<char> },
    IsRoot(Seq<char>),
}

impl GuardError {
    pub open spec fn view(&self) -> GuardErrorView {
        match self {
            GuardError::NotFound(p) => GuardErrorView::NotFound(p@),
            GuardError::OutsideRoot { target, root } => GuardErrorView::OutsideRoot {
                target: target@,
                root: root@,
            },
            GuardError::IsRoot(p) => GuardErrorView::IsRoot(p@),
        }
    }
}

/// The decision `resolve_under_root` takes, given the two paths as requested
/// and what canonicalising them produced (`None` where it failed).
pub open spec fn spec_resolve_under_root(
    root: Seq<u8>,
    canonical_root: Option<Seq<u8>>,
    target: Seq<u8>,
    canonical_target: Option<Seq<u8>>,
) -> Result<Seq<u8>, GuardErrorView> {
    match canonical_root {
        None => Err(GuardErrorView::NotFound(utf8_lossy(root))),
        Some(r) => match canonical_target {
            None => Err(GuardErrorView::NotFound(utf8_lossy(target))),
            Some(t) => if path_eq(t, r) {
                Err(GuardErrorView::IsRoot(utf8_lossy(t)))
            } else if !path_starts_with(t, r) {
                Err(GuardErrorView::OutsideRoot { target: utf8_lossy(t), root: utf8_lossy(r) })
            } else {
                Ok(t)
            },
        },
    }
}

pub open spec fn opt_view(o: Option<Vec<u8>>) -> Option<Seq<u8>> {
    match o {
        Some(v) => Some(v@),
        None => None,
    }
}

pub open spec fn result_view(r: Result<Vec<u8>, GuardError>) -> Result<Seq<u8>, GuardErrorView> {
    match r {
        Ok(v) => Ok(v@),
        Err(e) => Err(e.view()),
    }
}

/// Confirm that `target` sits strictly beneath `root`.
///
/// `canonical_root` and `canonical_target` are what canonicalising the two
/// paths on the device produced: that resolves `..` and follows symlinks, so a
/// link inside the root pointing outside it arrives here as its real location
/// and is rejected. The comparison is by whole components.
pub fn resolve_under_root(
    root: &[u8],
    canonical_root: Option<Vec<u8>>,
    target: &[u8],
    canonical_target: Option<Vec<u8>>,
) -> (r: Result<Vec<u8>, GuardError>)
    ensures
        result_view(r) == spec_resolve_under_root(
            root@,
            opt_view(canonical_root),
            target@,
            opt_view(canonical_target),
        ),
{
    let root_c = match canonical_root {
        Some(r) => r,
        None => {
            return Err(GuardError::NotFound(lossy(root)));
        },
    };
    let resolved = match canonical_target {
        Some(t) => t,
        None => {
            return Err(GuardError::NotFound(lossy(target)));
        },
    };
    if same_path(resolved.as_slice(), root_c.as_slice()) {
        return Err(GuardError::IsRoot(lossy(resolved.as_slice())));
    }
    if !starts_with(resolved.as_slice(), root_c.as_slice()) {
        return Err(
            GuardError::OutsideRoot {
                target: lossy(resolved.as_slice()),
                root: lossy(root_c.as_slice()),
            },
        );
    }
    Ok(resolved)
}

/// What `resolve_at_or_under_root` answers: the same as
/// `resolve_under_root`, except that the root itself is accepted, as the path
/// its display text names.
pub open spec fn spec_resolve_at_or_under_root(
    root: Seq<u8>,
    canonical_root: Option<Seq<u8>>,
    target: Seq<u8>,
    canonical_target: Option<Seq<u8>>,
) -> Result<Seq<u8>, GuardErrorView> {
    match spec_resolve_under_root(root, canonical_root, target, canonical_target) {
        Err(GuardErrorView::IsRoot(p)) => Ok(vstd::utf8::encode_utf8(p)),
        other => other,
    }
}

/// Like `resolve_under_root` but permits the root itself, for read-only
/// operations such as starting a scan.
pub fn resolve_at_or_under_root(
    root: &[u8],
    canonical_root: Option<Vec<u8>>,
    target: &[u8],
    canonical_target: Option<Vec<u8>>,
) -> (r: Result<Vec<u8>, GuardError>)
    ensures
        result_view(r) == spec_resolve_at_or_under_root(
            root@,
            opt_view(canonical_root),
            target@,
            opt_view(canonical_target),
        ),
{
    match resolve_under_root(root, canonical_root, target, canonical_target) {
        Err(GuardError::IsRoot(p)) => {
            let bytes = vstd::slice::slice_to_vec(p.as_str().as_bytes());
            Ok(bytes)
        },
        other => other,
    }
}

} // verus!

verus! {

/// Only what lies strictly beneath the root is ever authorised: an accepted
/// path is where the target canonicalised to, it has the canonical root's
/// components as a proper prefix, and it is not the root itself. The scan
/// variant differs only in also accepting the root.
pub proof fn law_only_paths_beneath_the_root_pass(
    root: Seq<u8>,
    canonical_root: Option<Seq<u8>>,
    target: Seq<u8>,
    canonical_target: Option<Seq<u8>>,
)
    ensures
        spec_resolve_under_root(root, canonical_root, target, canonical_target) is Ok ==> {
            let t = spec_resolve_under_root(root, canonical_root, target, canonical_target)->Ok_0;
            let r = canonical_root->0;
            &&& canonical_root is Some
            &&& canonical_target == Some(t)
            &&& path_starts_with(t, r)
            &&& !path_eq(t, r)
            &&& components(r).len() < components(t).len()
            &&& components(t).subrange(0, components(r).len() as int) == components(r)
        },
        !(spec_resolve_under_root(root, canonical_root, target, canonical_target) matches Err(
            GuardErrorView::IsRoot(_),
        )) ==> spec_resolve_at_or_under_root(root, canonical_root, target, canonical_target)
            == spec_resolve_under_root(root, canonical_root, target, canonical_target),
{
    if spec_resolve_under_root(root, canonical_root, target, canonical_target) is Ok {
        let t = canonical_target->0;
        let r = canonical_root->0;
        if components(r).len() == components(t).len() {
            assert(components(t) =~= components(t).subrange(0, components(r).len() as int));
        }
    }
}

} // verus!
