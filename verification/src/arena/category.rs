//! File-type classification: broad categories by extension, and the totals
//! per category across the tree.
//!
//! Deliberately coarse. "You have 24GB of video" is an answer someone can act
//! on; a list of forty extensions is the same data with the conclusion removed.

use vstd::prelude::*;
use vstd::view::View as _;
use crate::text::{lossy, lowercase, lowercased, utf8_lossy};
use super::{Arena, ArenaView, NodeView};

verus! {

/// The categories, in the order they are numbered.
pub const PHOTOS: usize = 0;
pub const VIDEO: usize = 1;
pub const AUDIO: usize = 2;
pub const APPS: usize = 3;
pub const DOCUMENTS: usize = 4;
pub const ARCHIVES: usize = 5;
/// No extension, or one that no list names.
pub const OTHER: usize = 6;
pub const CATEGORY_COUNT: usize = 7;

pub const DOT: u8 = 0x2e;

/// The label each category is shown under.
pub open spec fn category_label(c: int) -> Seq<char> {
    if c == PHOTOS {
        "Photos"@
    } else if c == VIDEO {
        "Video"@
    } else if c == AUDIO {
        "Audio"@
    } else if c == APPS {
        "Apps"@
    } else if c == DOCUMENTS {
        "Documents"@
    } else if c == ARCHIVES {
        "Archives"@
    } else {
        "Other"@
    }
}

/// Where each label falls in alphabetical order: Apps, Archives, Audio,
/// Documents, Other, Photos, Video (`lemma_label_order` proves it).
pub open spec fn label_rank(c: int) -> int {
    if c == APPS {
        0
    } else if c == ARCHIVES {
        1
    } else if c == AUDIO {
        2
    } else if c == DOCUMENTS {
        3
    } else if c == OTHER {
        4
    } else if c == PHOTOS {
        5
    } else {
        6
    }
}

/// `a` sorts before `b`, character by character, as `str`'s ordering has it.
pub open spec fn text_before(a: Seq<char>, b: Seq<char>) -> bool
    decreases a.len(),
{
    if a.len() == 0 {
        b.len() > 0
    } else if b.len() == 0 {
        false
    } else if a[0] != b[0] {
        (a[0] as u32) < (b[0] as u32)
    } else {
        text_before(a.drop_first(), b.drop_first())
    }
}

pub proof fn lemma_text_before_irreflexive(s: Seq<char>)
    ensures
        !text_before(s, s),
    decreases s.len(),
{
    if s.len() > 0 {
        lemma_text_before_irreflexive(s.drop_first());
    }
}

/// The labels in alphabetical order are those in rank order.
pub proof fn lemma_label_order(a: int, b: int)
    requires
        0 <= a < CATEGORY_COUNT,
        0 <= b < CATEGORY_COUNT,
    ensures
        text_before(category_label(a), category_label(b)) <==> label_rank(a) < label_rank(b),
{
    reveal_strlit("Photos");
    reveal_strlit("Video");
    reveal_strlit("Audio");
    reveal_strlit("Apps");
    reveal_strlit("Documents");
    reveal_strlit("Archives");
    reveal_strlit("Other");
    if a == b {
        lemma_text_before_irreflexive(category_label(a));
    } else {
        reveal_with_fuel(text_before, 3);
    }
}

/// The lowercase extensions that place a file in category `k`.
pub open spec fn ext_table(k: int) -> Seq<Seq<char>> {
    if k == PHOTOS {
        seq![
            "jpg"@, "jpeg"@, "png"@, "gif"@, "webp"@, "heic"@, "heif"@, "bmp"@, "tiff"@, "tif"@,
            "dng"@, "raw"@, "avif"@, "svg"@,
        ]
    } else if k == VIDEO {
        seq![
            "mp4"@, "mkv"@, "avi"@, "mov"@, "3gp"@, "webm"@, "flv"@, "m4v"@, "wmv"@, "ts"@, "mpg"@,
            "mpeg"@,
        ]
    } else if k == AUDIO {
        seq!["mp3"@, "aac"@, "flac"@, "wav"@, "ogg"@, "m4a"@, "opus"@, "wma"@, "amr"@, "mid"@]
    } else if k == APPS {
        seq!["apk"@, "obb"@, "xapk"@, "apks"@, "aab"@]
    } else if k == DOCUMENTS {
        seq![
            "pdf"@, "doc"@, "docx"@, "xls"@, "xlsx"@, "ppt"@, "pptx"@, "txt"@, "md"@, "epub"@,
            "mobi"@, "csv"@, "rtf"@, "odt"@,
        ]
    } else if k == ARCHIVES {
        seq!["zip"@, "rar"@, "7z"@, "tar"@, "gz"@, "bz2"@, "xz"@, "iso"@, "img"@]
    } else {
        Seq::empty()
    }
}

/// The first list from `k` on that names `e`, or `OTHER`.
pub open spec fn kind_from(e: Seq<char>, k: int) -> int
    decreases OTHER - k,
{
    if k >= OTHER {
        OTHER as int
    } else if ext_table(k).contains(e) {
        k
    } else {
        kind_from(e, k + 1)
    }
}

/// The position of the last dot among the first `k` bytes, or -1.
pub open spec fn last_dot(name: Seq<u8>, k: int) -> int
    decreases k,
{
    if k <= 0 {
        -1
    } else if name[k - 1] == DOT {
        k - 1
    } else {
        last_dot(name, k - 1)
    }
}

/// The bytes after the last dot. A leading dot marks a hidden file rather
/// than an extension, and a trailing dot leaves nothing to classify.
pub open spec fn extension(name: Seq<u8>) -> Option<Seq<u8>> {
    let d = last_dot(name, name.len() as int);
    if d <= 0 || d + 1 >= name.len() {
        None
    } else {
        Some(name.subrange(d + 1, name.len() as int))
    }
}

/// The category of a file name: its extension, shown lossily and lowercased,
/// looked up in the lists in order.
pub open spec fn category(name: Seq<u8>) -> int {
    match extension(name) {
        None => OTHER as int,
        Some(x) => kind_from(lowercased(utf8_lossy(x)), 0),
    }
}

/// The label of category `c`.
pub fn label_of(c: usize) -> (s: &'static str)
    ensures
        s@ == category_label(c as int),
{
    if c == PHOTOS {
        "Photos"
    } else if c == VIDEO {
        "Video"
    } else if c == AUDIO {
        "Audio"
    } else if c == APPS {
        "Apps"
    } else if c == DOCUMENTS {
        "Documents"
    } else if c == ARCHIVES {
        "Archives"
    } else {
        "Other"
    }
}

fn table(k: usize) -> (t: Vec<&'static str>)
    requires
        k < OTHER,
    ensures
        t@.map_values(|s: &str| s@) == ext_table(k as int),
{
    if k == PHOTOS {
        let t = vec![
            "jpg", "jpeg", "png", "gif", "webp", "heic", "heif", "bmp", "tiff", "tif", "dng", "raw",
            "avif", "svg",
        ];
        assert(t@.map_values(|s: &str| s@) =~= ext_table(k as int));
        t
    } else if k == VIDEO {
        let t = vec![
            "mp4", "mkv", "avi", "mov", "3gp", "webm", "flv", "m4v", "wmv", "ts", "mpg", "mpeg",
        ];
        assert(t@.map_values(|s: &str| s@) =~= ext_table(k as int));
        t
    } else if k == AUDIO {
        let t = vec!["mp3", "aac", "flac", "wav", "ogg", "m4a", "opus", "wma", "amr", "mid"];
        assert(t@.map_values(|s: &str| s@) =~= ext_table(k as int));
        t
    } else if k == APPS {
        let t = vec!["apk", "obb", "xapk", "apks", "aab"];
        assert(t@.map_values(|s: &str| s@) =~= ext_table(k as int));
        t
    } else if k == DOCUMENTS {
        let t = vec![
            "pdf", "doc", "docx", "xls", "xlsx", "ppt", "pptx", "txt", "md", "epub", "mobi", "csv",
            "rtf", "odt",
        ];
        assert(t@.map_values(|s: &str| s@) =~= ext_table(k as int));
        t
    } else {
        let t = vec!["zip", "rar", "7z", "tar", "gz", "bz2", "xz", "iso", "img"];
        assert(t@.map_values(|s: &str| s@) =~= ext_table(k as int));
        t
    }
}

fn listed_in(e: &String, t: &Vec<&'static str>) -> (r: bool)
    ensures
        r == t@.map_values(|s: &str| s@).contains(e@),
{
    let ghost names = t@.map_values(|s: &str| s@);
    let mut i: usize = 0;
    while i < t.len()
        invariant
            names == t@.map_values(|s: &str| s@),
            i <= t@.len(),
            forall|j: int| 0 <= j < i ==> #[trigger] names[j] != e@,
        decreases t@.len() - i,
    {
        let s = t[i].to_string();
        if s == *e {
            assert(names[i as int] == e@);
            return true;
        }
        i += 1;
    }
    proof {
        if names.contains(e@) {
            let j = choose|j: int| 0 <= j < names.len() && names[j] == e@;
            assert(names[j] != e@);
        }
    }
    false
}

fn kind_of(e: &String) -> (k: usize)
    ensures
        k == kind_from(e@, 0),
        k <= OTHER,
{
    let mut k: usize = 0;
    while k < OTHER
        invariant
            k <= OTHER,
            kind_from(e@, 0) == kind_from(e@, k as int),
        decreases OTHER - k,
    {
        let t = table(k);
        if listed_in(e, &t) {
            return k;
        }
        k += 1;
    }
    OTHER
}

/// The category a file name falls in.
pub fn category_of(name: &[u8]) -> (c: usize)
    ensures
        c == category(name@),
        c < CATEGORY_COUNT,
{
    let mut i = name.len();
    loop
        invariant
            i <= name@.len(),
            last_dot(name@, name@.len() as int) == last_dot(name@, i as int),
        ensures
            last_dot(name@, name@.len() as int) == i - 1,
        decreases i,
    {
        if i == 0 {
            break;
        }
        if name[i - 1] == DOT {
            break;
        }
        i -= 1;
    }
    if i <= 1 || i >= name.len() {
        return OTHER;
    }
    let (_, tail) = name.split_at(i);
    let shown = lossy(tail);
    let folded = lowercase(shown.as_str());
    let k = kind_of(&folded);
    proof {
        assert(extension(name@) == Some(name@.subrange(i as int, name@.len() as int)));
    }
    k
}


/// A file that has not been removed.
pub open spec fn live_file(nodes: Seq<NodeView>, j: int) -> bool {
    !nodes[j].removed && !nodes[j].is_dir
}

/// Bytes of the live files of category `c` among the first `k` nodes.
pub open spec fn cat_bytes(nodes: Seq<NodeView>, c: int, k: int) -> int
    decreases k,
{
    if k <= 0 {
        0
    } else {
        cat_bytes(nodes, c, k - 1) + if live_file(nodes, k - 1) && category(nodes[k - 1].name) == c {
            nodes[k - 1].size as int
        } else {
            0
        }
    }
}

/// Live files of category `c` among the first `k` nodes.
pub open spec fn cat_files(nodes: Seq<NodeView>, c: int, k: int) -> int
    decreases k,
{
    if k <= 0 {
        0
    } else {
        cat_files(nodes, c, k - 1) + if live_file(nodes, k - 1) && category(nodes[k - 1].name) == c {
            1int
        } else {
            0
        }
    }
}

/// Bytes of all live files among the first `k` nodes.
pub open spec fn file_bytes(nodes: Seq<NodeView>, k: int) -> int
    decreases k,
{
    if k <= 0 {
        0
    } else {
        file_bytes(nodes, k - 1) + if live_file(nodes, k - 1) {
            nodes[k - 1].size as int
        } else {
            0
        }
    }
}

/// `listed_before` with the labels compared by their alphabetical rank,
/// as the sort computes it.
pub open spec fn group_before(sa: int, ca: int, sb: int, cb: int) -> bool {
    sa > sb || (sa == sb && label_rank(ca) < label_rank(cb))
}

/// How a breakdown is ordered: larger totals first, equal totals by label.
pub open spec fn listed_before(sa: int, ca: int, sb: int, cb: int) -> bool {
    sa > sb || (sa == sb && text_before(category_label(ca), category_label(cb)))
}

/// Bytes and file count of one category.
#[derive(Debug, Clone, Copy)]
pub struct TypeGroup {
    pub label: &'static str,
    pub size: u64,
    pub files: u32,
}

impl ArenaView {
    pub open spec fn group_bytes(self, c: int) -> int {
        cat_bytes(self.nodes, c, self.len())
    }

    pub open spec fn group_files(self, c: int) -> int {
        cat_files(self.nodes, c, self.len())
    }

    /// Bytes of every live file in the tree.
    pub open spec fn total_file_bytes(self) -> int {
        file_bytes(self.nodes, self.len())
    }

    /// `r` lists, for the categories `cats`, each one's label, bytes and file
    /// count: exactly the categories that hold a live file, larger totals
    /// first and equal totals by label.
    pub open spec fn breakdown_by(self, r: Seq<TypeGroup>, cats: Seq<int>) -> bool {
        &&& r.len() == cats.len()
        &&& forall|i: int|
            #![trigger r[i]]
            0 <= i < r.len() ==> {
                &&& 0 <= cats[i] < CATEGORY_COUNT
                &&& r[i].label@ == category_label(cats[i])
                &&& r[i].size == self.group_bytes(cats[i])
                &&& r[i].files == self.group_files(cats[i])
            }
        &&& forall|c: int| 0 <= c < CATEGORY_COUNT ==> (self.group_files(c) > 0 <==> #[trigger] cats.contains(c))
        &&& forall|i: int, j: int|
            0 <= i < j < r.len() ==> listed_before(
                #[trigger] r[i].size as int,
                cats[i],
                #[trigger] r[j].size as int,
                cats[j],
            )
    }

    /// The breakdown of this tree is `r`.
    pub open spec fn breakdown_is(self, r: Seq<TypeGroup>) -> bool {
        exists|cats: Seq<int>| #[trigger] self.breakdown_by(r, cats)
    }
}

pub proof fn lemma_cat_bounds(nodes: Seq<NodeView>, c: int, k: int)
    ensures
        0 <= cat_bytes(nodes, c, k) <= file_bytes(nodes, k),
        0 <= cat_files(nodes, c, k) <= if k < 0 {
            0
        } else {
            k
        },
    decreases k,
{
    if k > 0 {
        lemma_cat_bounds(nodes, c, k - 1);
    }
}

pub proof fn lemma_file_bytes_mono(nodes: Seq<NodeView>, k: int, m: int)
    requires
        k <= m,
    ensures
        file_bytes(nodes, k) <= file_bytes(nodes, m),
    decreases m - k,
{
    if k < m {
        lemma_file_bytes_mono(nodes, k, m - 1);
    }
}

fn goes_first(sizes: &Vec<u64>, a: usize, b: usize) -> (r: bool)
    requires
        a < sizes@.len(),
        b < sizes@.len(),
    ensures
        r == group_before(sizes@[a as int] as int, a as int, sizes@[b as int] as int, b as int),
{
    sizes[a] > sizes[b] || (sizes[a] == sizes[b] && rank_of(a) < rank_of(b))
}

fn rank_of(c: usize) -> (r: usize)
    ensures
        r == label_rank(c as int),
{
    if c == APPS {
        0
    } else if c == ARCHIVES {
        1
    } else if c == AUDIO {
        2
    } else if c == DOCUMENTS {
        3
    } else if c == OTHER {
        4
    } else if c == PHOTOS {
        5
    } else {
        6
    }
}

impl Arena {
    /// Whether the live files' bytes, added up, fit in a `u64`: the condition
    /// under which `type_breakdown` totals without overflowing.
    pub fn breakdown_fits(&self) -> (r: bool)
        requires
            self.wf(),
        ensures
            r == (self.model().total_file_bytes() <= u64::MAX),
    {
        let ghost v = self.model();
        let mut total: u64 = 0;
        let mut i: usize = 0;
        while i < self.nodes.len()
            invariant
                v == self.model(),
                i <= v.len(),
                total == file_bytes(v.nodes, i as int),
            decreases v.len() - i,
        {
            let n = &self.nodes[i];
            proof {
                assert(v.nodes[i as int] == n.view());
            }
            if !n.is_dir && !n.removed {
                if n.size > u64::MAX - total {
                    proof {
                        lemma_file_bytes_mono(v.nodes, i + 1, v.len());
                    }
                    return false;
                }
                total = total + n.size;
            }
            i += 1;
        }
        true
    }
}

impl Arena {
    /// Total bytes per broad file category, largest first; categories
    /// without a live file are left out.
    pub fn type_breakdown(&self) -> (groups: Vec<TypeGroup>)
        requires
            self.wf(),
            self.model().total_file_bytes() <= u64::MAX,
        ensures
            self.model().breakdown_is(groups@),
    {
        let ghost v = self.model();
        let mut sizes: Vec<u64> = vec![0, 0, 0, 0, 0, 0, 0];
        let mut counts: Vec<u32> = vec![0, 0, 0, 0, 0, 0, 0];
        let mut i: usize = 0;
        while i < self.nodes.len()
            invariant
                v == self.model(),
                self.wf(),
                v.shaped(),
                i <= v.len(),
                v.total_file_bytes() <= u64::MAX,
                sizes@.len() == CATEGORY_COUNT,
                counts@.len() == CATEGORY_COUNT,
                forall|c: int|
                    0 <= c < CATEGORY_COUNT ==> #[trigger] sizes@[c] == cat_bytes(v.nodes, c, i as int)
                        && counts@[c] == cat_files(v.nodes, c, i as int),
            decreases v.len() - i,
        {
            let n = &self.nodes[i];
            proof {
                assert(v.nodes[i as int] == n.view());
            }
            let ghost s0 = sizes@;
            let ghost k0 = counts@;
            let ghost file = live_file(v.nodes, i as int);
            let ghost cat = category(v.nodes[i as int].name);
            if !n.is_dir && !n.removed {
                let c = category_of(n.name.as_slice());
                proof {
                    lemma_cat_bounds(v.nodes, c as int, i + 1);
                    lemma_file_bytes_mono(v.nodes, i + 1, v.len());
                }
                let s = sizes[c] + n.size;
                let k = counts[c] + 1;
                sizes.set(c, s);
                counts.set(c, k);
            }
            proof {
                assert forall|c: int| 0 <= c < CATEGORY_COUNT implies #[trigger] sizes@[c] == cat_bytes(
                    v.nodes,
                    c,
                    i + 1,
                ) && counts@[c] == cat_files(v.nodes, c, i + 1) by {
                    assert(s0[c] == cat_bytes(v.nodes, c, i as int));
                    if file && cat == c {
                        assert(sizes@[c] == s0[c] + v.nodes[i as int].size);
                        assert(counts@[c] == k0[c] + 1);
                    } else {
                        assert(sizes@[c] == s0[c]);
                        assert(counts@[c] == k0[c]);
                    }
                }
            }
            i += 1;
        }
        let mut order: Vec<usize> = Vec::new();
        let mut c: usize = 0;
        while c < CATEGORY_COUNT
            invariant
                forall|c: int|
                    0 <= c < CATEGORY_COUNT ==> #[trigger] sizes@[c] == v.group_bytes(c) && counts@[c]
                        == v.group_files(c),
                sizes@.len() == CATEGORY_COUNT,
                counts@.len() == CATEGORY_COUNT,
                c <= CATEGORY_COUNT,
                forall|a: int| 0 <= a < order@.len() ==> (#[trigger] order@[a]) < c,
                forall|x: usize| #[trigger] order@.contains(x) <==> x < c && counts@[x as int] > 0,
                forall|a: int, b: int|
                    0 <= a < b < order@.len() ==> group_before(
                        sizes@[#[trigger] order@[a] as int] as int,
                        order@[a] as int,
                        sizes@[#[trigger] order@[b] as int] as int,
                        order@[b] as int,
                    ),
            decreases CATEGORY_COUNT - c,
        {
            if counts[c] > 0 {
                let mut p: usize = 0;
                while p < order.len()
                    invariant
                        sizes@.len() == CATEGORY_COUNT,
                        c < CATEGORY_COUNT,
                        p <= order@.len(),
                        forall|a: int| 0 <= a < order@.len() ==> (#[trigger] order@[a]) < c,
                        forall|q: int|
                            0 <= q < p ==> group_before(
                                sizes@[#[trigger] order@[q] as int] as int,
                                order@[q] as int,
                                sizes@[c as int] as int,
                                c as int,
                            ),
                    ensures
                        p <= order@.len(),
                        forall|q: int|
                            0 <= q < p ==> group_before(
                                sizes@[#[trigger] order@[q] as int] as int,
                                order@[q] as int,
                                sizes@[c as int] as int,
                                c as int,
                            ),
                        p < order@.len() ==> group_before(
                            sizes@[c as int] as int,
                            c as int,
                            sizes@[order@[p as int] as int] as int,
                            order@[p as int] as int,
                        ),
                    decreases order@.len() - p,
                {
                    if goes_first(&sizes, c, order[p]) {
                        break;
                    }
                    proof {
                        let x = order@[p as int];
                        assert(x != c);
                        assert(label_rank(x as int) != label_rank(c as int));
                    }
                    p += 1;
                }
                let ghost prev = order@;
                order.insert(p, c);
                proof {
                    assert(order@ =~= prev.insert(p as int, c));
                    assert forall|a: int, b: int| 0 <= a < b < order@.len() implies group_before(
                        sizes@[#[trigger] order@[a] as int] as int,
                        order@[a] as int,
                        sizes@[#[trigger] order@[b] as int] as int,
                        order@[b] as int,
                    ) by {
                        if b < p {
                            assert(order@[a] == prev[a] && order@[b] == prev[b]);
                        } else if b == p {
                            assert(order@[a] == prev[a]);
                        } else if a == p {
                            assert(order@[b] == prev[b - 1]);
                            if b - 1 > p {
                                assert(group_before(
                                    sizes@[prev[p as int] as int] as int,
                                    prev[p as int] as int,
                                    sizes@[prev[b - 1] as int] as int,
                                    prev[b - 1] as int,
                                ));
                            }
                        } else if a < p {
                            assert(order@[a] == prev[a] && order@[b] == prev[b - 1]);
                        } else {
                            assert(order@[a] == prev[a - 1] && order@[b] == prev[b - 1]);
                        }
                    }
                    assert forall|x: usize| #[trigger] order@.contains(x) <==> x < c + 1 && counts@[x as int] > 0 by {
                        if order@.contains(x) {
                            let q = choose|q: int| 0 <= q < order@.len() && order@[q] == x;
                            if q < p {
                                assert(prev[q] == x);
                            } else if q > p {
                                assert(prev[q - 1] == x);
                            }
                        }
                        if x == c {
                            assert(order@[p as int] == c);
                        } else if prev.contains(x) {
                            let q = choose|q: int| 0 <= q < prev.len() && prev[q] == x;
                            if q < p {
                                assert(order@[q] == x);
                            } else {
                                assert(order@[q + 1] == x);
                            }
                        }
                    }
                    assert forall|a: int| 0 <= a < order@.len() implies (#[trigger] order@[a]) < c + 1 by {
                        if a < p {
                            assert(order@[a] == prev[a]);
                        } else if a > p {
                            assert(order@[a] == prev[a - 1]);
                        }
                    }
                }
            }
            c += 1;
        }
        let mut groups: Vec<TypeGroup> = Vec::new();
        let mut k: usize = 0;
        while k < order.len()
            invariant
                forall|c: int|
                    0 <= c < CATEGORY_COUNT ==> #[trigger] sizes@[c] == v.group_bytes(c) && counts@[c]
                        == v.group_files(c),
                forall|x: usize| #[trigger] order@.contains(x) <==> x < CATEGORY_COUNT && counts@[x as int] > 0,
                forall|a: int, b: int|
                    0 <= a < b < order@.len() ==> group_before(
                        sizes@[#[trigger] order@[a] as int] as int,
                        order@[a] as int,
                        sizes@[#[trigger] order@[b] as int] as int,
                        order@[b] as int,
                    ),
                sizes@.len() == CATEGORY_COUNT,
                counts@.len() == CATEGORY_COUNT,
                forall|a: int| 0 <= a < order@.len() ==> (#[trigger] order@[a]) < CATEGORY_COUNT,
                k <= order@.len(),
                groups@.len() == k,
                forall|j: int|
                    0 <= j < k ==> {
                        &&& (#[trigger] groups@[j]).label@ == category_label(order@[j] as int)
                        &&& groups@[j].size == sizes@[order@[j] as int]
                        &&& groups@[j].files == counts@[order@[j] as int]
                    },
            decreases order@.len() - k,
        {
            let c = order[k];
            groups.push(TypeGroup { label: label_of(c), size: sizes[c], files: counts[c] });
            k += 1;
        }
        proof {
            let cats = order@.map_values(|c: usize| c as int);
            assert forall|x: int| 0 <= x < CATEGORY_COUNT implies (v.group_files(x) > 0 <==> #[trigger] cats.contains(x)) by {
                assert(sizes@[x] == v.group_bytes(x));
                assert(counts@[x] == v.group_files(x));
                if cats.contains(x) {
                    let q = choose|q: int| 0 <= q < cats.len() && cats[q] == x;
                    assert(order@[q] == x as usize);
                    assert(order@.contains(x as usize));
                }
                if order@.contains(x as usize) {
                    let q = choose|q: int| 0 <= q < order@.len() && order@[q] == x as usize;
                    assert(cats[q] == x);
                }
            }
            assert(groups@.len() == cats.len());
            assert forall|i: int| 0 <= i < groups@.len() implies {
                &&& 0 <= cats[i] < CATEGORY_COUNT
                &&& (#[trigger] groups@[i]).label@ == category_label(cats[i])
                &&& groups@[i].size == v.group_bytes(cats[i])
                &&& groups@[i].files == v.group_files(cats[i])
            } by {
                assert(order@[i] < CATEGORY_COUNT);
                assert(cats[i] == order@[i] as int);
            }
            assert forall|i: int, j: int| 0 <= i < j < groups@.len() implies listed_before(
                #[trigger] groups@[i].size as int,
                cats[i],
                #[trigger] groups@[j].size as int,
                cats[j],
            ) by {
                assert(cats[i] == order@[i] as int);
                assert(cats[j] == order@[j] as int);
                assert(order@[i] < CATEGORY_COUNT && order@[j] < CATEGORY_COUNT);
                lemma_label_order(cats[i], cats[j]);
            }
            assert(v.breakdown_by(groups@, cats));
        }
        groups
    }
}


/// The sizes of a list of groups, added up.
pub open spec fn sum_sizes(r: Seq<TypeGroup>) -> int
    decreases r.len(),
{
    if r.len() == 0 {
        0
    } else {
        sum_sizes(r.drop_last()) + r.last().size
    }
}

/// `f` added up over the members of `s`.
pub open spec fn seq_sum(s: Seq<int>, f: spec_fn(int) -> int) -> int
    decreases s.len(),
{
    if s.len() == 0 {
        0
    } else {
        seq_sum(s.drop_last(), f) + f(s.last())
    }
}

/// `f` added up over the numbers below `n` that `s` holds.
pub open spec fn sel_sum(s: Seq<int>, f: spec_fn(int) -> int, n: int) -> int
    decreases n,
{
    if n <= 0 {
        0
    } else {
        sel_sum(s, f, n - 1) + if s.contains(n - 1) {
            f(n - 1)
        } else {
            0
        }
    }
}

/// Bytes of the live files of the categories below `n`, among the first
/// `k` nodes.
pub open spec fn cats_total(nodes: Seq<NodeView>, k: int, n: int) -> int
    decreases n,
{
    if n <= 0 {
        0
    } else {
        cats_total(nodes, k, n - 1) + cat_bytes(nodes, n - 1, k)
    }
}

proof fn lemma_kind_range(e: Seq<char>, k: int)
    requires
        0 <= k,
    ensures
        0 <= kind_from(e, k) <= OTHER,
    decreases OTHER - k,
{
    if k < OTHER {
        lemma_kind_range(e, k + 1);
    }
}

/// Every name falls in one of the categories.
pub proof fn lemma_category_range(name: Seq<u8>)
    ensures
        0 <= category(name) < CATEGORY_COUNT,
{
    match extension(name) {
        None => {},
        Some(x) => lemma_kind_range(lowercased(utf8_lossy(x)), 0),
    }
}

proof fn lemma_cats_total_step(nodes: Seq<NodeView>, k: int, n: int)
    requires
        0 <= k,
    ensures
        cats_total(nodes, k + 1, n) == cats_total(nodes, k, n) + if live_file(nodes, k) && 0 <= category(
            nodes[k].name,
        ) < n {
            nodes[k].size as int
        } else {
            0
        },
    decreases n,
{
    if n > 0 {
        lemma_cats_total_step(nodes, k, n - 1);
    }
}

/// The categories split the file bytes between them.
proof fn lemma_cats_total(nodes: Seq<NodeView>, k: int)
    requires
        0 <= k,
    ensures
        cats_total(nodes, k, CATEGORY_COUNT as int) == file_bytes(nodes, k),
    decreases k,
{
    if k > 0 {
        lemma_cats_total(nodes, k - 1);
        lemma_cats_total_step(nodes, k - 1, CATEGORY_COUNT as int);
        lemma_category_range(nodes[k - 1].name);
    } else {
        reveal_with_fuel(cats_total, 8);
    }
}

/// A category with no file has no bytes.
proof fn lemma_no_files_no_bytes(nodes: Seq<NodeView>, c: int, k: int)
    requires
        cat_files(nodes, c, k) == 0,
    ensures
        cat_bytes(nodes, c, k) == 0,
    decreases k,
{
    if k > 0 {
        lemma_cat_bounds(nodes, c, k - 1);
        lemma_no_files_no_bytes(nodes, c, k - 1);
    }
}

proof fn lemma_sel_sum_push(t: Seq<int>, x: int, f: spec_fn(int) -> int, n: int)
    requires
        !t.contains(x),
    ensures
        sel_sum(t.push(x), f, n) == sel_sum(t, f, n) + if 0 <= x < n {
            f(x)
        } else {
            0
        },
    decreases n,
{
    if n > 0 {
        lemma_sel_sum_push(t, x, f, n - 1);
        super::lemmas::lemma_push_contains(t, x);
    }
}

/// Adding over a list without repeats is adding over the set it holds.
proof fn lemma_seq_sum_sel(s: Seq<int>, f: spec_fn(int) -> int, n: int)
    requires
        s.no_duplicates(),
        forall|i: int| 0 <= i < s.len() ==> 0 <= #[trigger] s[i] < n,
    ensures
        seq_sum(s, f) == sel_sum(s, f, n),
    decreases s.len(),
{
    if s.len() == 0 {
        lemma_sel_sum_empty(s, f, n);
    } else {
        let t = s.drop_last();
        let x = s.last();
        assert(t.push(x) =~= s);
        assert(!t.contains(x)) by {
            if t.contains(x) {
                let q = choose|q: int| 0 <= q < t.len() && t[q] == x;
                assert(s[q] == s[s.len() - 1]);
            }
        }
        assert(t.no_duplicates()) by {
            assert forall|a: int, b: int| 0 <= a < t.len() && 0 <= b < t.len() && a != b implies t[a] != t[b] by {
                assert(s[a] == t[a] && s[b] == t[b]);
            }
        }
        assert forall|i: int| 0 <= i < t.len() implies 0 <= #[trigger] t[i] < n by {
            assert(s[i] == t[i]);
        }
        lemma_seq_sum_sel(t, f, n);
        lemma_sel_sum_push(t, x, f, n);
    }
}

proof fn lemma_sel_sum_empty(s: Seq<int>, f: spec_fn(int) -> int, n: int)
    requires
        s.len() == 0,
    ensures
        sel_sum(s, f, n) == 0,
    decreases n,
{
    if n > 0 {
        lemma_sel_sum_empty(s, f, n - 1);
    }
}

/// Selecting every category that has a file loses no bytes.
proof fn lemma_sel_sum_total(v: ArenaView, cats: Seq<int>, n: int)
    requires
        0 <= n <= CATEGORY_COUNT,
        forall|c: int| 0 <= c < CATEGORY_COUNT ==> (v.group_files(c) > 0 <==> #[trigger] cats.contains(c)),
    ensures
        sel_sum(cats, |c: int| v.group_bytes(c), n) == cats_total(v.nodes, v.len(), n),
    decreases n,
{
    if n > 0 {
        lemma_sel_sum_total(v, cats, n - 1);
        lemma_cat_bounds(v.nodes, n - 1, v.len());
        if !cats.contains(n - 1) {
            lemma_no_files_no_bytes(v.nodes, n - 1, v.len());
        }
    }
}

proof fn lemma_sum_sizes_by_cats(v: ArenaView, r: Seq<TypeGroup>, cats: Seq<int>)
    requires
        r.len() == cats.len(),
        forall|i: int| 0 <= i < r.len() ==> (#[trigger] r[i]).size == v.group_bytes(cats[i]),
    ensures
        sum_sizes(r) == seq_sum(cats, |c: int| v.group_bytes(c)),
    decreases r.len(),
{
    if r.len() > 0 {
        let r2 = r.drop_last();
        let c2 = cats.drop_last();
        assert forall|i: int| 0 <= i < r2.len() implies (#[trigger] r2[i]).size == v.group_bytes(c2[i]) by {
            assert(r2[i] == r[i]);
        }
        lemma_sum_sizes_by_cats(v, r2, c2);
    }
}

/// The categories a breakdown lists, each once and each a known one.
proof fn lemma_breakdown_cats(v: ArenaView, r: Seq<TypeGroup>) -> (cats: Seq<int>)
    requires
        v.breakdown_is(r),
    ensures
        v.breakdown_by(r, cats),
        cats.no_duplicates(),
        forall|i: int| 0 <= i < cats.len() ==> 0 <= #[trigger] cats[i] < CATEGORY_COUNT,
{
    let cats = choose|cats: Seq<int>| #[trigger] v.breakdown_by(r, cats);
    assert(cats.no_duplicates()) by {
        assert forall|a: int, b: int| 0 <= a < cats.len() && 0 <= b < cats.len() && a != b implies cats[a] != cats[b] by {
            if a < b {
                assert(listed_before(r[a].size as int, cats[a], r[b].size as int, cats[b]));
            } else {
                assert(listed_before(r[b].size as int, cats[b], r[a].size as int, cats[a]));
            }
            if cats[a] == cats[b] {
                lemma_text_before_irreflexive(category_label(cats[a]));
            }
        }
    }
    assert forall|i: int| 0 <= i < cats.len() implies 0 <= #[trigger] cats[i] < CATEGORY_COUNT by {
        assert(r[i].size == v.group_bytes(cats[i]));
    }
    cats
}

/// Every byte lands in exactly one category: the sizes of a breakdown add up
/// to the bytes of all live files.
pub proof fn law_breakdown_covers_every_file(v: ArenaView, r: Seq<TypeGroup>)
    requires
        v.breakdown_is(r),
    ensures
        sum_sizes(r) == v.total_file_bytes(),
{
    let cats = lemma_breakdown_cats(v, r);
    assert forall|i: int| 0 <= i < r.len() implies (#[trigger] r[i]).size == v.group_bytes(cats[i]) by {}
    lemma_sum_sizes_by_cats(v, r, cats);
    lemma_seq_sum_sel(cats, |c: int| v.group_bytes(c), CATEGORY_COUNT as int);
    lemma_sel_sum_total(v, cats, CATEGORY_COUNT as int);
    lemma_cats_total(v.nodes, v.len());
}

/// The file counts of a list of groups, added up.
pub open spec fn sum_files(r: Seq<TypeGroup>) -> int
    decreases r.len(),
{
    if r.len() == 0 {
        0
    } else {
        sum_files(r.drop_last()) + r.last().files
    }
}

/// Live files among the first `k` nodes.
pub open spec fn file_count(nodes: Seq<NodeView>, k: int) -> int
    decreases k,
{
    if k <= 0 {
        0
    } else {
        file_count(nodes, k - 1) + if live_file(nodes, k - 1) {
            1int
        } else {
            0
        }
    }
}

/// Live files of the categories below `n`, among the first `k` nodes.
pub open spec fn cats_files(nodes: Seq<NodeView>, k: int, n: int) -> int
    decreases n,
{
    if n <= 0 {
        0
    } else {
        cats_files(nodes, k, n - 1) + cat_files(nodes, n - 1, k)
    }
}

proof fn lemma_cats_files_step(nodes: Seq<NodeView>, k: int, n: int)
    requires
        0 <= k,
    ensures
        cats_files(nodes, k + 1, n) == cats_files(nodes, k, n) + if live_file(nodes, k) && 0 <= category(
            nodes[k].name,
        ) < n {
            1int
        } else {
            0
        },
    decreases n,
{
    if n > 0 {
        lemma_cats_files_step(nodes, k, n - 1);
    }
}

proof fn lemma_cats_files(nodes: Seq<NodeView>, k: int)
    requires
        0 <= k,
    ensures
        cats_files(nodes, k, CATEGORY_COUNT as int) == file_count(nodes, k),
    decreases k,
{
    if k > 0 {
        lemma_cats_files(nodes, k - 1);
        lemma_cats_files_step(nodes, k - 1, CATEGORY_COUNT as int);
        lemma_category_range(nodes[k - 1].name);
    } else {
        reveal_with_fuel(cats_files, 8);
    }
}

proof fn lemma_sel_files_total(v: ArenaView, cats: Seq<int>, n: int)
    requires
        0 <= n <= CATEGORY_COUNT,
        forall|c: int| 0 <= c < CATEGORY_COUNT ==> (v.group_files(c) > 0 <==> #[trigger] cats.contains(c)),
    ensures
        sel_sum(cats, |c: int| v.group_files(c), n) == cats_files(v.nodes, v.len(), n),
    decreases n,
{
    if n > 0 {
        lemma_sel_files_total(v, cats, n - 1);
        lemma_cat_bounds(v.nodes, n - 1, v.len());
    }
}

proof fn lemma_sum_files_by_cats(v: ArenaView, r: Seq<TypeGroup>, cats: Seq<int>)
    requires
        r.len() == cats.len(),
        forall|i: int| 0 <= i < r.len() ==> (#[trigger] r[i]).files == v.group_files(cats[i]),
    ensures
        sum_files(r) == seq_sum(cats, |c: int| v.group_files(c)),
    decreases r.len(),
{
    if r.len() > 0 {
        let r2 = r.drop_last();
        let c2 = cats.drop_last();
        assert forall|i: int| 0 <= i < r2.len() implies (#[trigger] r2[i]).files == v.group_files(c2[i]) by {
            assert(r2[i] == r[i]);
        }
        lemma_sum_files_by_cats(v, r2, c2);
    }
}

/// Every file lands in exactly one category: the file counts of a breakdown
/// add up to the number of live files.
pub proof fn law_breakdown_counts_every_file(v: ArenaView, r: Seq<TypeGroup>)
    requires
        v.breakdown_is(r),
    ensures
        sum_files(r) == file_count(v.nodes, v.len()),
{
    let cats = lemma_breakdown_cats(v, r);
    assert forall|i: int| 0 <= i < r.len() implies (#[trigger] r[i]).files == v.group_files(cats[i]) by {}
    lemma_sum_files_by_cats(v, r, cats);
    lemma_seq_sum_sel(cats, |c: int| v.group_files(c), CATEGORY_COUNT as int);
    lemma_sel_files_total(v, cats, CATEGORY_COUNT as int);
    lemma_cats_files(v.nodes, v.len());
}

proof fn lemma_root_files(v: ArenaView, k: int)
    requires
        v.shaped(),
        0 <= k <= v.len(),
    ensures
        v.files_under(0, k) == file_count(v.nodes, k),
    decreases k,
{
    if k > 0 {
        lemma_root_files(v, k - 1);
        v.lemma_anc_root(k - 1);
    }
}

proof fn lemma_root_bytes(v: ArenaView, k: int)
    requires
        v.shaped(),
        0 <= k <= v.len(),
    ensures
        v.bytes_under(0, k) == file_bytes(v.nodes, k),
    decreases k,
{
    if k > 0 {
        lemma_root_bytes(v, k - 1);
        v.lemma_anc_root(k - 1);
    }
}

/// The scan total is the bytes of every live file: in a tree whose totals
/// are consistent, the root reports exactly what the live files hold.
pub proof fn law_scan_total_is_every_live_file(v: ArenaView)
    requires
        v.shaped(),
        v.tallied(),
    ensures
        v.nodes[0].size == v.total_file_bytes(),
{
    lemma_root_bytes(v, v.len());
    assert(v.nodes[0].size == v.bytes_under(0, v.len()));
}

/// A breakdown runs largest first: no category is listed after one that
/// holds fewer bytes, and categories holding the same bytes run by label.
pub proof fn law_breakdown_runs_largest_first(v: ArenaView, r: Seq<TypeGroup>)
    requires
        v.breakdown_is(r),
    ensures
        forall|i: int, j: int| 0 <= i < j < r.len() ==> #[trigger] r[i].size >= #[trigger] r[j].size,
        forall|i: int, j: int|
            0 <= i < j < r.len() && #[trigger] r[i].size == #[trigger] r[j].size ==> text_before(
                r[i].label@,
                r[j].label@,
            ),
{
    let cats = choose|cats: Seq<int>| #[trigger] v.breakdown_by(r, cats);
    assert forall|i: int, j: int| 0 <= i < j < r.len() implies #[trigger] r[i].size >= #[trigger] r[j].size by {
        assert(listed_before(r[i].size as int, cats[i], r[j].size as int, cats[j]));
    }
    assert forall|i: int, j: int|
        0 <= i < j < r.len() && #[trigger] r[i].size == #[trigger] r[j].size implies text_before(
            r[i].label@,
            r[j].label@,
        ) by {
        assert(listed_before(r[i].size as int, cats[i], r[j].size as int, cats[j]));
    }
}

/// In a tallied tree the live files hold exactly the bytes and number the
/// root reports, so a breakdown adds up to the scan's totals.
pub proof fn law_breakdown_matches_scan_total(v: ArenaView, r: Seq<TypeGroup>)
    requires
        v.shaped(),
        v.tallied(),
        v.breakdown_is(r),
    ensures
        sum_sizes(r) == v.nodes[0].size,
        sum_files(r) == v.nodes[0].files,
{
    law_breakdown_covers_every_file(v, r);
    law_scan_total_is_every_live_file(v);
    law_breakdown_counts_every_file(v, r);
    lemma_root_files(v, v.len());
    assert(v.nodes[0].files == v.files_under(0, v.len()));
}

} // verus!

verus! {

/// The extension of a name as it is looked up: shown lossily, then lowercased.
pub open spec fn folded_extension(name: Seq<u8>) -> Option<Seq<char>> {
    match extension(name) {
        None => None,
        Some(b) => Some(lowercased(utf8_lossy(b))),
    }
}

/// Each photo extension is found first in the photo list.
proof fn lemma_photo_extensions(e: Seq<char>)
    requires
        e == "jpg"@ || e == "jpeg"@ || e == "png"@ || e == "gif"@ || e == "webp"@ || e == "heic"@ || e == "heif"@ || e == "bmp"@ || e == "tiff"@ || e == "tif"@ || e == "dng"@ || e == "raw"@ || e == "avif"@ || e == "svg"@,
    ensures
        kind_from(e, 0) == PHOTOS,
{
    reveal_with_fuel(kind_from, 2);
    reveal_strlit("jpg");
    reveal_strlit("jpeg");
    reveal_strlit("png");
    reveal_strlit("gif");
    reveal_strlit("webp");
    reveal_strlit("heic");
    reveal_strlit("heif");
    reveal_strlit("bmp");
    reveal_strlit("tiff");
    reveal_strlit("tif");
    reveal_strlit("dng");
    reveal_strlit("raw");
    reveal_strlit("avif");
    reveal_strlit("svg");
    assert(ext_table(PHOTOS as int).contains(e)) by {
        if e == "jpg"@ {
            assert(ext_table(PHOTOS as int)[0] == e);
        } else if e == "jpeg"@ {
            assert(ext_table(PHOTOS as int)[1] == e);
        } else if e == "png"@ {
            assert(ext_table(PHOTOS as int)[2] == e);
        } else if e == "gif"@ {
            assert(ext_table(PHOTOS as int)[3] == e);
        } else if e == "webp"@ {
            assert(ext_table(PHOTOS as int)[4] == e);
        } else if e == "heic"@ {
            assert(ext_table(PHOTOS as int)[5] == e);
        } else if e == "heif"@ {
            assert(ext_table(PHOTOS as int)[6] == e);
        } else if e == "bmp"@ {
            assert(ext_table(PHOTOS as int)[7] == e);
        } else if e == "tiff"@ {
            assert(ext_table(PHOTOS as int)[8] == e);
        } else if e == "tif"@ {
            assert(ext_table(PHOTOS as int)[9] == e);
        } else if e == "dng"@ {
            assert(ext_table(PHOTOS as int)[10] == e);
        } else if e == "raw"@ {
            assert(ext_table(PHOTOS as int)[11] == e);
        } else if e == "avif"@ {
            assert(ext_table(PHOTOS as int)[12] == e);
        } else if e == "svg"@ {
            assert(ext_table(PHOTOS as int)[13] == e);
        }
    }
}

/// Each video extension is found first in the video list.
proof fn lemma_video_extensions(e: Seq<char>)
    requires
        e == "mp4"@ || e == "mkv"@ || e == "avi"@ || e == "mov"@ || e == "3gp"@ || e == "webm"@ || e == "flv"@ || e == "m4v"@ || e == "wmv"@ || e == "ts"@ || e == "mpg"@ || e == "mpeg"@,
    ensures
        kind_from(e, 0) == VIDEO,
{
    reveal_with_fuel(kind_from, 3);
    reveal_strlit("jpg");
    reveal_strlit("jpeg");
    reveal_strlit("png");
    reveal_strlit("gif");
    reveal_strlit("webp");
    reveal_strlit("heic");
    reveal_strlit("heif");
    reveal_strlit("bmp");
    reveal_strlit("tiff");
    reveal_strlit("tif");
    reveal_strlit("dng");
    reveal_strlit("raw");
    reveal_strlit("avif");
    reveal_strlit("svg");
    reveal_strlit("mp4");
    reveal_strlit("mkv");
    reveal_strlit("avi");
    reveal_strlit("mov");
    reveal_strlit("3gp");
    reveal_strlit("webm");
    reveal_strlit("flv");
    reveal_strlit("m4v");
    reveal_strlit("wmv");
    reveal_strlit("ts");
    reveal_strlit("mpg");
    reveal_strlit("mpeg");
    assert(!ext_table(PHOTOS as int).contains(e)) by {
        if ext_table(PHOTOS as int).contains(e) {
            let q = choose|q: int| 0 <= q < ext_table(PHOTOS as int).len() && ext_table(PHOTOS as int)[q] == e;
            assert(q == 0 || q == 1 || q == 2 || q == 3 || q == 4 || q == 5 || q == 6 || q == 7 || q == 8 || q == 9 || q == 10 || q == 11 || q == 12 || q == 13);
            assert(e.len() == ext_table(PHOTOS as int)[q].len() && e[0] == ext_table(PHOTOS as int)[q][0] && e[1] == ext_table(PHOTOS as int)[q][1]);
            assert(e[2] == ext_table(PHOTOS as int)[q][2] && e[3] == ext_table(PHOTOS as int)[q][3]);
            assert(false);
        }
    }
    assert(ext_table(VIDEO as int).contains(e)) by {
        if e == "mp4"@ {
            assert(ext_table(VIDEO as int)[0] == e);
        } else if e == "mkv"@ {
            assert(ext_table(VIDEO as int)[1] == e);
        } else if e == "avi"@ {
            assert(ext_table(VIDEO as int)[2] == e);
        } else if e == "mov"@ {
            assert(ext_table(VIDEO as int)[3] == e);
        } else if e == "3gp"@ {
            assert(ext_table(VIDEO as int)[4] == e);
        } else if e == "webm"@ {
            assert(ext_table(VIDEO as int)[5] == e);
        } else if e == "flv"@ {
            assert(ext_table(VIDEO as int)[6] == e);
        } else if e == "m4v"@ {
            assert(ext_table(VIDEO as int)[7] == e);
        } else if e == "wmv"@ {
            assert(ext_table(VIDEO as int)[8] == e);
        } else if e == "ts"@ {
            assert(ext_table(VIDEO as int)[9] == e);
        } else if e == "mpg"@ {
            assert(ext_table(VIDEO as int)[10] == e);
        } else if e == "mpeg"@ {
            assert(ext_table(VIDEO as int)[11] == e);
        }
    }
}

/// Each audio extension is found first in the audio list.
proof fn lemma_audio_extensions(e: Seq<char>)
    requires
        e == "mp3"@ || e == "aac"@ || e == "flac"@ || e == "wav"@ || e == "ogg"@ || e == "m4a"@ || e == "opus"@ || e == "wma"@ || e == "amr"@ || e == "mid"@,
    ensures
        kind_from(e, 0) == AUDIO,
{
    reveal_with_fuel(kind_from, 4);
    reveal_strlit("jpg");
    reveal_strlit("jpeg");
    reveal_strlit("png");
    reveal_strlit("gif");
    reveal_strlit("webp");
    reveal_strlit("heic");
    reveal_strlit("heif");
    reveal_strlit("bmp");
    reveal_strlit("tiff");
    reveal_strlit("tif");
    reveal_strlit("dng");
    reveal_strlit("raw");
    reveal_strlit("avif");
    reveal_strlit("svg");
    reveal_strlit("mp4");
    reveal_strlit("mkv");
    reveal_strlit("avi");
    reveal_strlit("mov");
    reveal_strlit("3gp");
    reveal_strlit("webm");
    reveal_strlit("flv");
    reveal_strlit("m4v");
    reveal_strlit("wmv");
    reveal_strlit("ts");
    reveal_strlit("mpg");
    reveal_strlit("mpeg");
    reveal_strlit("mp3");
    reveal_strlit("aac");
    reveal_strlit("flac");
    reveal_strlit("wav");
    reveal_strlit("ogg");
    reveal_strlit("m4a");
    reveal_strlit("opus");
    reveal_strlit("wma");
    reveal_strlit("amr");
    reveal_strlit("mid");
    assert(!ext_table(PHOTOS as int).contains(e)) by {
        if ext_table(PHOTOS as int).contains(e) {
            let q = choose|q: int| 0 <= q < ext_table(PHOTOS as int).len() && ext_table(PHOTOS as int)[q] == e;
            assert(q == 0 || q == 1 || q == 2 || q == 3 || q == 4 || q == 5 || q == 6 || q == 7 || q == 8 || q == 9 || q == 10 || q == 11 || q == 12 || q == 13);
            assert(e.len() == ext_table(PHOTOS as int)[q].len() && e[0] == ext_table(PHOTOS as int)[q][0] && e[1] == ext_table(PHOTOS as int)[q][1]);
            assert(e[2] == ext_table(PHOTOS as int)[q][2] && e[3] == ext_table(PHOTOS as int)[q][3]);
            assert(false);
        }
    }
    assert(!ext_table(VIDEO as int).contains(e)) by {
        if ext_table(VIDEO as int).contains(e) {
            let q = choose|q: int| 0 <= q < ext_table(VIDEO as int).len() && ext_table(VIDEO as int)[q] == e;
            assert(q == 0 || q == 1 || q == 2 || q == 3 || q == 4 || q == 5 || q == 6 || q == 7 || q == 8 || q == 9 || q == 10 || q == 11);
            assert(e.len() == ext_table(VIDEO as int)[q].len() && e[0] == ext_table(VIDEO as int)[q][0] && e[1] == ext_table(VIDEO as int)[q][1]);
            assert(e[2] == ext_table(VIDEO as int)[q][2] && e[3] == ext_table(VIDEO as int)[q][3]);
            assert(false);
        }
    }
    assert(ext_table(AUDIO as int).contains(e)) by {
        if e == "mp3"@ {
            assert(ext_table(AUDIO as int)[0] == e);
        } else if e == "aac"@ {
            assert(ext_table(AUDIO as int)[1] == e);
        } else if e == "flac"@ {
            assert(ext_table(AUDIO as int)[2] == e);
        } else if e == "wav"@ {
            assert(ext_table(AUDIO as int)[3] == e);
        } else if e == "ogg"@ {
            assert(ext_table(AUDIO as int)[4] == e);
        } else if e == "m4a"@ {
            assert(ext_table(AUDIO as int)[5] == e);
        } else if e == "opus"@ {
            assert(ext_table(AUDIO as int)[6] == e);
        } else if e == "wma"@ {
            assert(ext_table(AUDIO as int)[7] == e);
        } else if e == "amr"@ {
            assert(ext_table(AUDIO as int)[8] == e);
        } else if e == "mid"@ {
            assert(ext_table(AUDIO as int)[9] == e);
        }
    }
}

/// Each app extension is found first in the app list.
proof fn lemma_app_extensions(e: Seq<char>)
    requires
        e == "apk"@ || e == "obb"@ || e == "xapk"@ || e == "apks"@ || e == "aab"@,
    ensures
        kind_from(e, 0) == APPS,
{
    reveal_with_fuel(kind_from, 5);
    reveal_strlit("jpg");
    reveal_strlit("jpeg");
    reveal_strlit("png");
    reveal_strlit("gif");
    reveal_strlit("webp");
    reveal_strlit("heic");
    reveal_strlit("heif");
    reveal_strlit("bmp");
    reveal_strlit("tiff");
    reveal_strlit("tif");
    reveal_strlit("dng");
    reveal_strlit("raw");
    reveal_strlit("avif");
    reveal_strlit("svg");
    reveal_strlit("mp4");
    reveal_strlit("mkv");
    reveal_strlit("avi");
    reveal_strlit("mov");
    reveal_strlit("3gp");
    reveal_strlit("webm");
    reveal_strlit("flv");
    reveal_strlit("m4v");
    reveal_strlit("wmv");
    reveal_strlit("ts");
    reveal_strlit("mpg");
    reveal_strlit("mpeg");
    reveal_strlit("mp3");
    reveal_strlit("aac");
    reveal_strlit("flac");
    reveal_strlit("wav");
    reveal_strlit("ogg");
    reveal_strlit("m4a");
    reveal_strlit("opus");
    reveal_strlit("wma");
    reveal_strlit("amr");
    reveal_strlit("mid");
    reveal_strlit("apk");
    reveal_strlit("obb");
    reveal_strlit("xapk");
    reveal_strlit("apks");
    reveal_strlit("aab");
    assert(!ext_table(PHOTOS as int).contains(e)) by {
        if ext_table(PHOTOS as int).contains(e) {
            let q = choose|q: int| 0 <= q < ext_table(PHOTOS as int).len() && ext_table(PHOTOS as int)[q] == e;
            assert(q == 0 || q == 1 || q == 2 || q == 3 || q == 4 || q == 5 || q == 6 || q == 7 || q == 8 || q == 9 || q == 10 || q == 11 || q == 12 || q == 13);
            assert(e.len() == ext_table(PHOTOS as int)[q].len() && e[0] == ext_table(PHOTOS as int)[q][0] && e[1] == ext_table(PHOTOS as int)[q][1]);
            assert(e[2] == ext_table(PHOTOS as int)[q][2] && e[3] == ext_table(PHOTOS as int)[q][3]);
            assert(false);
        }
    }
    assert(!ext_table(VIDEO as int).contains(e)) by {
        if ext_table(VIDEO as int).contains(e) {
            let q = choose|q: int| 0 <= q < ext_table(VIDEO as int).len() && ext_table(VIDEO as int)[q] == e;
            assert(q == 0 || q == 1 || q == 2 || q == 3 || q == 4 || q == 5 || q == 6 || q == 7 || q == 8 || q == 9 || q == 10 || q == 11);
            assert(e.len() == ext_table(VIDEO as int)[q].len() && e[0] == ext_table(VIDEO as int)[q][0] && e[1] == ext_table(VIDEO as int)[q][1]);
            assert(e[2] == ext_table(VIDEO as int)[q][2] && e[3] == ext_table(VIDEO as int)[q][3]);
            assert(false);
        }
    }
    assert(!ext_table(AUDIO as int).contains(e)) by {
        if ext_table(AUDIO as int).contains(e) {
            let q = choose|q: int| 0 <= q < ext_table(AUDIO as int).len() && ext_table(AUDIO as int)[q] == e;
            assert(q == 0 || q == 1 || q == 2 || q == 3 || q == 4 || q == 5 || q == 6 || q == 7 || q == 8 || q == 9);
            assert(e.len() == ext_table(AUDIO as int)[q].len() && e[0] == ext_table(AUDIO as int)[q][0] && e[1] == ext_table(AUDIO as int)[q][1]);
            assert(e[2] == ext_table(AUDIO as int)[q][2] && e[3] == ext_table(AUDIO as int)[q][3]);
            assert(false);
        }
    }
    assert(ext_table(APPS as int).contains(e)) by {
        if e == "apk"@ {
            assert(ext_table(APPS as int)[0] == e);
        } else if e == "obb"@ {
            assert(ext_table(APPS as int)[1] == e);
        } else if e == "xapk"@ {
            assert(ext_table(APPS as int)[2] == e);
        } else if e == "apks"@ {
            assert(ext_table(APPS as int)[3] == e);
        } else if e == "aab"@ {
            assert(ext_table(APPS as int)[4] == e);
        }
    }
}

/// Each document extension is found first in the document list.
proof fn lemma_document_extensions(e: Seq<char>)
    requires
        e == "pdf"@ || e == "doc"@ || e == "docx"@ || e == "xls"@ || e == "xlsx"@ || e == "ppt"@ || e == "pptx"@ || e == "txt"@ || e == "md"@ || e == "epub"@ || e == "mobi"@ || e == "csv"@ || e == "rtf"@ || e == "odt"@,
    ensures
        kind_from(e, 0) == DOCUMENTS,
{
    reveal_with_fuel(kind_from, 6);
    reveal_strlit("jpg");
    reveal_strlit("jpeg");
    reveal_strlit("png");
    reveal_strlit("gif");
    reveal_strlit("webp");
    reveal_strlit("heic");
    reveal_strlit("heif");
    reveal_strlit("bmp");
    reveal_strlit("tiff");
    reveal_strlit("tif");
    reveal_strlit("dng");
    reveal_strlit("raw");
    reveal_strlit("avif");
    reveal_strlit("svg");
    reveal_strlit("mp4");
    reveal_strlit("mkv");
    reveal_strlit("avi");
    reveal_strlit("mov");
    reveal_strlit("3gp");
    reveal_strlit("webm");
    reveal_strlit("flv");
    reveal_strlit("m4v");
    reveal_strlit("wmv");
    reveal_strlit("ts");
    reveal_strlit("mpg");
    reveal_strlit("mpeg");
    reveal_strlit("mp3");
    reveal_strlit("aac");
    reveal_strlit("flac");
    reveal_strlit("wav");
    reveal_strlit("ogg");
    reveal_strlit("m4a");
    reveal_strlit("opus");
    reveal_strlit("wma");
    reveal_strlit("amr");
    reveal_strlit("mid");
    reveal_strlit("apk");
    reveal_strlit("obb");
    reveal_strlit("xapk");
    reveal_strlit("apks");
    reveal_strlit("aab");
    reveal_strlit("pdf");
    reveal_strlit("doc");
    reveal_strlit("docx");
    reveal_strlit("xls");
    reveal_strlit("xlsx");
    reveal_strlit("ppt");
    reveal_strlit("pptx");
    reveal_strlit("txt");
    reveal_strlit("md");
    reveal_strlit("epub");
    reveal_strlit("mobi");
    reveal_strlit("csv");
    reveal_strlit("rtf");
    reveal_strlit("odt");
    assert(!ext_table(PHOTOS as int).contains(e)) by {
        if ext_table(PHOTOS as int).contains(e) {
            let q = choose|q: int| 0 <= q < ext_table(PHOTOS as int).len() && ext_table(PHOTOS as int)[q] == e;
            assert(q == 0 || q == 1 || q == 2 || q == 3 || q == 4 || q == 5 || q == 6 || q == 7 || q == 8 || q == 9 || q == 10 || q == 11 || q == 12 || q == 13);
            assert(e.len() == ext_table(PHOTOS as int)[q].len() && e[0] == ext_table(PHOTOS as int)[q][0] && e[1] == ext_table(PHOTOS as int)[q][1]);
            assert(e[2] == ext_table(PHOTOS as int)[q][2] && e[3] == ext_table(PHOTOS as int)[q][3]);
            assert(false);
        }
    }
    assert(!ext_table(VIDEO as int).contains(e)) by {
        if ext_table(VIDEO as int).contains(e) {
            let q = choose|q: int| 0 <= q < ext_table(VIDEO as int).len() && ext_table(VIDEO as int)[q] == e;
            assert(q == 0 || q == 1 || q == 2 || q == 3 || q == 4 || q == 5 || q == 6 || q == 7 || q == 8 || q == 9 || q == 10 || q == 11);
            assert(e.len() == ext_table(VIDEO as int)[q].len() && e[0] == ext_table(VIDEO as int)[q][0] && e[1] == ext_table(VIDEO as int)[q][1]);
            assert(e[2] == ext_table(VIDEO as int)[q][2] && e[3] == ext_table(VIDEO as int)[q][3]);
            assert(false);
        }
    }
    assert(!ext_table(AUDIO as int).contains(e)) by {
        if ext_table(AUDIO as int).contains(e) {
            let q = choose|q: int| 0 <= q < ext_table(AUDIO as int).len() && ext_table(AUDIO as int)[q] == e;
            assert(q == 0 || q == 1 || q == 2 || q == 3 || q == 4 || q == 5 || q == 6 || q == 7 || q == 8 || q == 9);
            assert(e.len() == ext_table(AUDIO as int)[q].len() && e[0] == ext_table(AUDIO as int)[q][0] && e[1] == ext_table(AUDIO as int)[q][1]);
            assert(e[2] == ext_table(AUDIO as int)[q][2] && e[3] == ext_table(AUDIO as int)[q][3]);
            assert(false);
        }
    }
    assert(!ext_table(APPS as int).contains(e)) by {
        if ext_table(APPS as int).contains(e) {
            let q = choose|q: int| 0 <= q < ext_table(APPS as int).len() && ext_table(APPS as int)[q] == e;
            assert(q == 0 || q == 1 || q == 2 || q == 3 || q == 4);
            assert(e.len() == ext_table(APPS as int)[q].len() && e[0] == ext_table(APPS as int)[q][0] && e[1] == ext_table(APPS as int)[q][1]);
            assert(e[2] == ext_table(APPS as int)[q][2] && e[3] == ext_table(APPS as int)[q][3]);
            assert(false);
        }
    }
    assert(ext_table(DOCUMENTS as int).contains(e)) by {
        if e == "pdf"@ {
            assert(ext_table(DOCUMENTS as int)[0] == e);
        } else if e == "doc"@ {
            assert(ext_table(DOCUMENTS as int)[1] == e);
        } else if e == "docx"@ {
            assert(ext_table(DOCUMENTS as int)[2] == e);
        } else if e == "xls"@ {
            assert(ext_table(DOCUMENTS as int)[3] == e);
        } else if e == "xlsx"@ {
            assert(ext_table(DOCUMENTS as int)[4] == e);
        } else if e == "ppt"@ {
            assert(ext_table(DOCUMENTS as int)[5] == e);
        } else if e == "pptx"@ {
            assert(ext_table(DOCUMENTS as int)[6] == e);
        } else if e == "txt"@ {
            assert(ext_table(DOCUMENTS as int)[7] == e);
        } else if e == "md"@ {
            assert(ext_table(DOCUMENTS as int)[8] == e);
        } else if e == "epub"@ {
            assert(ext_table(DOCUMENTS as int)[9] == e);
        } else if e == "mobi"@ {
            assert(ext_table(DOCUMENTS as int)[10] == e);
        } else if e == "csv"@ {
            assert(ext_table(DOCUMENTS as int)[11] == e);
        } else if e == "rtf"@ {
            assert(ext_table(DOCUMENTS as int)[12] == e);
        } else if e == "odt"@ {
            assert(ext_table(DOCUMENTS as int)[13] == e);
        }
    }
}

/// Each archive extension is found first in the archive list.
proof fn lemma_archive_extensions(e: Seq<char>)
    requires
        e == "zip"@ || e == "rar"@ || e == "7z"@ || e == "tar"@ || e == "gz"@ || e == "bz2"@ || e == "xz"@ || e == "iso"@ || e == "img"@,
    ensures
        kind_from(e, 0) == ARCHIVES,
{
    reveal_with_fuel(kind_from, 7);
    reveal_strlit("jpg");
    reveal_strlit("jpeg");
    reveal_strlit("png");
    reveal_strlit("gif");
    reveal_strlit("webp");
    reveal_strlit("heic");
    reveal_strlit("heif");
    reveal_strlit("bmp");
    reveal_strlit("tiff");
    reveal_strlit("tif");
    reveal_strlit("dng");
    reveal_strlit("raw");
    reveal_strlit("avif");
    reveal_strlit("svg");
    reveal_strlit("mp4");
    reveal_strlit("mkv");
    reveal_strlit("avi");
    reveal_strlit("mov");
    reveal_strlit("3gp");
    reveal_strlit("webm");
    reveal_strlit("flv");
    reveal_strlit("m4v");
    reveal_strlit("wmv");
    reveal_strlit("ts");
    reveal_strlit("mpg");
    reveal_strlit("mpeg");
    reveal_strlit("mp3");
    reveal_strlit("aac");
    reveal_strlit("flac");
    reveal_strlit("wav");
    reveal_strlit("ogg");
    reveal_strlit("m4a");
    reveal_strlit("opus");
    reveal_strlit("wma");
    reveal_strlit("amr");
    reveal_strlit("mid");
    reveal_strlit("apk");
    reveal_strlit("obb");
    reveal_strlit("xapk");
    reveal_strlit("apks");
    reveal_strlit("aab");
    reveal_strlit("pdf");
    reveal_strlit("doc");
    reveal_strlit("docx");
    reveal_strlit("xls");
    reveal_strlit("xlsx");
    reveal_strlit("ppt");
    reveal_strlit("pptx");
    reveal_strlit("txt");
    reveal_strlit("md");
    reveal_strlit("epub");
    reveal_strlit("mobi");
    reveal_strlit("csv");
    reveal_strlit("rtf");
    reveal_strlit("odt");
    reveal_strlit("zip");
    reveal_strlit("rar");
    reveal_strlit("7z");
    reveal_strlit("tar");
    reveal_strlit("gz");
    reveal_strlit("bz2");
    reveal_strlit("xz");
    reveal_strlit("iso");
    reveal_strlit("img");
    assert(!ext_table(PHOTOS as int).contains(e)) by {
        if ext_table(PHOTOS as int).contains(e) {
            let q = choose|q: int| 0 <= q < ext_table(PHOTOS as int).len() && ext_table(PHOTOS as int)[q] == e;
            assert(q == 0 || q == 1 || q == 2 || q == 3 || q == 4 || q == 5 || q == 6 || q == 7 || q == 8 || q == 9 || q == 10 || q == 11 || q == 12 || q == 13);
            assert(e.len() == ext_table(PHOTOS as int)[q].len() && e[0] == ext_table(PHOTOS as int)[q][0] && e[1] == ext_table(PHOTOS as int)[q][1]);
            assert(e[2] == ext_table(PHOTOS as int)[q][2] && e[3] == ext_table(PHOTOS as int)[q][3]);
            assert(false);
        }
    }
    assert(!ext_table(VIDEO as int).contains(e)) by {
        if ext_table(VIDEO as int).contains(e) {
            let q = choose|q: int| 0 <= q < ext_table(VIDEO as int).len() && ext_table(VIDEO as int)[q] == e;
            assert(q == 0 || q == 1 || q == 2 || q == 3 || q == 4 || q == 5 || q == 6 || q == 7 || q == 8 || q == 9 || q == 10 || q == 11);
            assert(e.len() == ext_table(VIDEO as int)[q].len() && e[0] == ext_table(VIDEO as int)[q][0] && e[1] == ext_table(VIDEO as int)[q][1]);
            assert(e[2] == ext_table(VIDEO as int)[q][2] && e[3] == ext_table(VIDEO as int)[q][3]);
            assert(false);
        }
    }
    assert(!ext_table(AUDIO as int).contains(e)) by {
        if ext_table(AUDIO as int).contains(e) {
            let q = choose|q: int| 0 <= q < ext_table(AUDIO as int).len() && ext_table(AUDIO as int)[q] == e;
            assert(q == 0 || q == 1 || q == 2 || q == 3 || q == 4 || q == 5 || q == 6 || q == 7 || q == 8 || q == 9);
            assert(e.len() == ext_table(AUDIO as int)[q].len() && e[0] == ext_table(AUDIO as int)[q][0] && e[1] == ext_table(AUDIO as int)[q][1]);
            assert(e[2] == ext_table(AUDIO as int)[q][2] && e[3] == ext_table(AUDIO as int)[q][3]);
            assert(false);
        }
    }
    assert(!ext_table(APPS as int).contains(e)) by {
        if ext_table(APPS as int).contains(e) {
            let q = choose|q: int| 0 <= q < ext_table(APPS as int).len() && ext_table(APPS as int)[q] == e;
            assert(q == 0 || q == 1 || q == 2 || q == 3 || q == 4);
            assert(e.len() == ext_table(APPS as int)[q].len() && e[0] == ext_table(APPS as int)[q][0] && e[1] == ext_table(APPS as int)[q][1]);
            assert(e[2] == ext_table(APPS as int)[q][2] && e[3] == ext_table(APPS as int)[q][3]);
            assert(false);
        }
    }
    assert(!ext_table(DOCUMENTS as int).contains(e)) by {
        if ext_table(DOCUMENTS as int).contains(e) {
            let q = choose|q: int| 0 <= q < ext_table(DOCUMENTS as int).len() && ext_table(DOCUMENTS as int)[q] == e;
            assert(q == 0 || q == 1 || q == 2 || q == 3 || q == 4 || q == 5 || q == 6 || q == 7 || q == 8 || q == 9 || q == 10 || q == 11 || q == 12 || q == 13);
            assert(e.len() == ext_table(DOCUMENTS as int)[q].len() && e[0] == ext_table(DOCUMENTS as int)[q][0] && e[1] == ext_table(DOCUMENTS as int)[q][1]);
            assert(e[2] == ext_table(DOCUMENTS as int)[q][2] && e[3] == ext_table(DOCUMENTS as int)[q][3]);
            assert(false);
        }
    }
    assert(ext_table(ARCHIVES as int).contains(e)) by {
        if e == "zip"@ {
            assert(ext_table(ARCHIVES as int)[0] == e);
        } else if e == "rar"@ {
            assert(ext_table(ARCHIVES as int)[1] == e);
        } else if e == "7z"@ {
            assert(ext_table(ARCHIVES as int)[2] == e);
        } else if e == "tar"@ {
            assert(ext_table(ARCHIVES as int)[3] == e);
        } else if e == "gz"@ {
            assert(ext_table(ARCHIVES as int)[4] == e);
        } else if e == "bz2"@ {
            assert(ext_table(ARCHIVES as int)[5] == e);
        } else if e == "xz"@ {
            assert(ext_table(ARCHIVES as int)[6] == e);
        } else if e == "iso"@ {
            assert(ext_table(ARCHIVES as int)[7] == e);
        } else if e == "img"@ {
            assert(ext_table(ARCHIVES as int)[8] == e);
        }
    }
}

/// A file is placed by the extension after its last dot, lowercased: each
/// extension that a category lists puts the file in that category, whatever
/// its case, and a name with no extension is Other.
pub proof fn law_extensions_decide_the_category(name: Seq<u8>)
    ensures
        folded_extension(name) matches Some(x) && (x == "jpg"@ || x == "jpeg"@ || x == "png"@ || x == "gif"@ || x == "webp"@ || x == "heic"@ || x == "heif"@ || x == "bmp"@ || x == "tiff"@ || x == "tif"@ || x == "dng"@ || x == "raw"@ || x == "avif"@ || x == "svg"@) ==> category(name) == PHOTOS,
        folded_extension(name) matches Some(x) && (x == "mp4"@ || x == "mkv"@ || x == "avi"@ || x == "mov"@ || x == "3gp"@ || x == "webm"@ || x == "flv"@ || x == "m4v"@ || x == "wmv"@ || x == "ts"@ || x == "mpg"@ || x == "mpeg"@) ==> category(name) == VIDEO,
        folded_extension(name) matches Some(x) && (x == "mp3"@ || x == "aac"@ || x == "flac"@ || x == "wav"@ || x == "ogg"@ || x == "m4a"@ || x == "opus"@ || x == "wma"@ || x == "amr"@ || x == "mid"@) ==> category(name) == AUDIO,
        folded_extension(name) matches Some(x) && (x == "apk"@ || x == "obb"@ || x == "xapk"@ || x == "apks"@ || x == "aab"@) ==> category(name) == APPS,
        folded_extension(name) matches Some(x) && (x == "pdf"@ || x == "doc"@ || x == "docx"@ || x == "xls"@ || x == "xlsx"@ || x == "ppt"@ || x == "pptx"@ || x == "txt"@ || x == "md"@ || x == "epub"@ || x == "mobi"@ || x == "csv"@ || x == "rtf"@ || x == "odt"@) ==> category(name) == DOCUMENTS,
        folded_extension(name) matches Some(x) && (x == "zip"@ || x == "rar"@ || x == "7z"@ || x == "tar"@ || x == "gz"@ || x == "bz2"@ || x == "xz"@ || x == "iso"@ || x == "img"@) ==> category(name) == ARCHIVES,
        extension(name) is None ==> category(name) == OTHER,
{
    if let Some(x) = folded_extension(name) {
        if x == "jpg"@ || x == "jpeg"@ || x == "png"@ || x == "gif"@ || x == "webp"@ || x == "heic"@ || x == "heif"@ || x == "bmp"@ || x == "tiff"@ || x == "tif"@ || x == "dng"@ || x == "raw"@ || x == "avif"@ || x == "svg"@ {
            lemma_photo_extensions(x);
        }
        if x == "mp4"@ || x == "mkv"@ || x == "avi"@ || x == "mov"@ || x == "3gp"@ || x == "webm"@ || x == "flv"@ || x == "m4v"@ || x == "wmv"@ || x == "ts"@ || x == "mpg"@ || x == "mpeg"@ {
            lemma_video_extensions(x);
        }
        if x == "mp3"@ || x == "aac"@ || x == "flac"@ || x == "wav"@ || x == "ogg"@ || x == "m4a"@ || x == "opus"@ || x == "wma"@ || x == "amr"@ || x == "mid"@ {
            lemma_audio_extensions(x);
        }
        if x == "apk"@ || x == "obb"@ || x == "xapk"@ || x == "apks"@ || x == "aab"@ {
            lemma_app_extensions(x);
        }
        if x == "pdf"@ || x == "doc"@ || x == "docx"@ || x == "xls"@ || x == "xlsx"@ || x == "ppt"@ || x == "pptx"@ || x == "txt"@ || x == "md"@ || x == "epub"@ || x == "mobi"@ || x == "csv"@ || x == "rtf"@ || x == "odt"@ {
            lemma_document_extensions(x);
        }
        if x == "zip"@ || x == "rar"@ || x == "7z"@ || x == "tar"@ || x == "gz"@ || x == "bz2"@ || x == "xz"@ || x == "iso"@ || x == "img"@ {
            lemma_archive_extensions(x);
        }
    }
}

} // verus!

