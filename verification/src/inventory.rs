//! What is to be pushed: the files, the directories they need, and why there is none of it.

use vstd::prelude::*;
use vstd::utf8::{decode_utf8, valid_utf8};

use crate::order::{lemma_sorted_same_items, ranked_with, sorted_as};
use crate::path::{
    depth_order, lead, lemma_depth_order, lemma_paths_connected, lemma_same_place, parts, parts_lt,
    path_views, UnixPath,
};

verus! {

/// A file to push: where it is, and its path from the root of what is pushed.
#[derive(Debug)]
pub struct PushFile {
    pub local_path: UnixPath,
    pub relative_path: UnixPath,
}

/// A file to push, as a specification speaks of it.
pub struct Pushed {
    pub local: Seq<u8>,
    pub relative: Seq<u8>,
}

impl View for PushFile {
    type V = Pushed;

    open spec fn view(&self) -> Pushed {
        Pushed { local: self.local_path@, relative: self.relative_path@ }
    }
}

pub open spec fn file_views(list: Seq<PushFile>) -> Seq<Pushed> {
    list.map_values(|f: PushFile| f@)
}

/// Everything that is to be pushed.
#[derive(Debug)]
pub struct Inventory {
    pub directories: Vec<UnixPath>,
    pub files: Vec<PushFile>,
    pub total_bytes: u64,
}

/// Everything that is to be pushed, as a specification speaks of it.
pub struct Load {
    pub directories: Seq<Seq<u8>>,
    pub files: Seq<Pushed>,
    pub total_bytes: int,
}

impl View for Inventory {
    type V = Load;

    open spec fn view(&self) -> Load {
        Load {
            directories: path_views(self.directories@),
            files: file_views(self.files@),
            total_bytes: self.total_bytes as int,
        }
    }
}

/// Whether `dirs` holds a directory with the components of `p`.
pub open spec fn holds_directory(dirs: Seq<Seq<u8>>, p: Seq<u8>) -> bool {
    exists|i: int| 0 <= i < dirs.len() && parts(#[trigger] dirs[i]) == parts(p)
}

/// Whether no directory occurs twice.
pub open spec fn distinct_places(dirs: Seq<Seq<u8>>) -> bool {
    forall|i: int, j: int|
        0 <= i < j < dirs.len() ==> parts(#[trigger] dirs[i]) != parts(#[trigger] dirs[j])
}

/// Whether every directory above a file is there.
pub open spec fn covers(dirs: Seq<Seq<u8>>, files: Seq<Pushed>) -> bool {
    forall|i: int, k: int|
        0 <= i < files.len() && 1 <= k < parts((#[trigger] files[i]).relative).len()
            ==> holds_directory(dirs, #[trigger] lead(files[i].relative, k))
}

/// Whether `dir` is above one of the files.
pub open spec fn is_needed(dir: Seq<u8>, files: Seq<Pushed>) -> bool {
    exists|i: int, k: int|
        0 <= i < files.len() && 1 <= k < parts((#[trigger] files[i]).relative).len() && parts(dir)
            == #[trigger] parts(files[i].relative).take(k)
}

/// Whether every directory is above a file.
pub open spec fn needed(dirs: Seq<Seq<u8>>, files: Seq<Pushed>) -> bool {
    forall|d: int| 0 <= d < dirs.len() ==> #[trigger] is_needed(dirs[d], files)
}

proof fn lemma_filter_two<T>(s: Seq<T>, p: spec_fn(T) -> bool, i: int, j: int)
    requires
        0 <= i < j < s.len(),
        p(s[i]),
        p(s[j]),
    ensures
        s.filter(p).len() >= 2,
{
    let a = s.take(i + 1);
    let b = s.skip(i + 1);
    assert(a + b =~= s);
    Seq::filter_distributes_over_add(a, b, p);
    a.lemma_filter_contains(p, i);
    b.lemma_filter_contains(p, j - i - 1);
    assert(b[j - i - 1] == s[j]);
    assert(a[i] == s[i]);
}

pub(crate) proof fn lemma_filter_at_most_one<T>(s: Seq<T>, p: spec_fn(T) -> bool)
    requires
        forall|i: int, j: int| 0 <= i < j < s.len() ==> !(p(#[trigger] s[i]) && p(#[trigger] s[j])),
    ensures
        s.filter(p).len() <= 1,
        s.filter(p).len() == 1 ==> exists|i: int| 0 <= i < s.len() && p(#[trigger] s[i]),
    decreases s.len(),
{
    reveal(Seq::filter);
    if s.len() > 0 {
        let t = s.drop_last();
        assert forall|i: int, j: int| 0 <= i < j < t.len() implies !(p(#[trigger] t[i]) && p(
            #[trigger] t[j],
        )) by {
            assert(!(p(s[i]) && p(s[j])));
        }
        lemma_filter_at_most_one(t, p);
        if p(s.last()) {
            if t.filter(p).len() == 1 {
                let i = choose|i: int| 0 <= i < t.len() && p(#[trigger] t[i]);
                assert(!(p(s[i]) && p(s[s.len() - 1])));
            }
            assert(p(s[s.len() - 1]));
        } else if t.filter(p).len() == 1 {
            let i = choose|i: int| 0 <= i < t.len() && p(#[trigger] t[i]);
            assert(p(s[i]));
        }
    }
}

proof fn lemma_laid_in_order(r: Seq<Seq<u8>>, s: Seq<Seq<u8>>)
    requires
        sorted_as(r, s, depth_order()),
    ensures
        forall|i: int, j: int|
            0 <= i < j < r.len() ==> parts(#[trigger] r[i]).len() <= parts(#[trigger] r[j]).len()
                && (parts(r[i]).len() == parts(r[j]).len() ==> parts(r[i]) == parts(r[j])
                || parts_lt(parts(r[i]), parts(r[j]))),
{
    let leq = depth_order();
    assert forall|i: int, j: int| 0 <= i < j < r.len() implies parts(#[trigger] r[i]).len()
        <= parts(#[trigger] r[j]).len() && (parts(r[i]).len() == parts(r[j]).len() ==> parts(r[i])
        == parts(r[j]) || parts_lt(parts(r[i]), parts(r[j]))) by {
        assert(leq(r[i], r[j]));
        if parts(r[i]) != parts(r[j]) {
            lemma_paths_connected(parts(r[i]), parts(r[j]));
        }
    }
}

/// Laying directories out loses none and doubles none, and puts each behind those that are above
/// it; among those with equally many components, the order of paths decides.
pub proof fn lemma_laid_out(r: Seq<Seq<u8>>, s: Seq<Seq<u8>>)
    requires
        sorted_as(r, s, depth_order()),
    ensures
        forall|p: Seq<u8>| #[trigger] holds_directory(r, p) == holds_directory(s, p),
        distinct_places(s) ==> distinct_places(r),
        forall|i: int, j: int|
            0 <= i < r.len() && 0 <= j < r.len() && parts(#[trigger] r[i]).len() < parts(
                #[trigger] r[j],
            ).len() ==> i < j,
        forall|i: int, j: int|
            0 <= i < j < r.len() ==> parts(#[trigger] r[i]).len() <= parts(#[trigger] r[j]).len()
                && (parts(r[i]).len() == parts(r[j]).len() ==> parts(r[i]) == parts(r[j])
                || parts_lt(parts(r[i]), parts(r[j]))),
{
    lemma_laid_in_order(r, s);
    broadcast use vstd::seq_lib::group_to_multiset_ensures;

    let leq = depth_order();
    lemma_depth_order();
    lemma_sorted_same_items(r, s, leq);
    assert forall|p: Seq<u8>| #[trigger] holds_directory(r, p) == holds_directory(s, p) by {
        if holds_directory(r, p) {
            let i = choose|i: int| 0 <= i < r.len() && parts(#[trigger] r[i]) == parts(p);
            assert(r.contains(r[i]));
            assert(r.to_multiset().count(r[i]) > 0);
            assert(s.contains(r[i]));
            let j = choose|j: int| 0 <= j < s.len() && s[j] == r[i];
            assert(parts(s[j]) == parts(p));
        }
        if holds_directory(s, p) {
            let i = choose|i: int| 0 <= i < s.len() && parts(#[trigger] s[i]) == parts(p);
            assert(s.contains(s[i]));
            assert(s.to_multiset().count(s[i]) > 0);
            assert(r.contains(s[i]));
            let j = choose|j: int| 0 <= j < r.len() && r[j] == s[i];
            assert(parts(r[j]) == parts(p));
        }
    }
    if distinct_places(s) {
        assert forall|i: int, j: int| 0 <= i < j < r.len() implies parts(#[trigger] r[i]) != parts(
            #[trigger] r[j],
        ) by {
            if parts(r[i]) == parts(r[j]) {
                let k = r[i];
                let p = |x: Seq<u8>| leq(x, k) && leq(k, x);
                assert(leq(k, k));
                assert(leq(r[j], k) && leq(k, r[j]));
                lemma_filter_two(r, p, i, j);
                assert forall|a: int, b: int| 0 <= a < b < s.len() implies !(p(#[trigger] s[a])
                    && p(#[trigger] s[b])) by {
                    if p(s[a]) && p(s[b]) {
                        lemma_same_place(s[a], k);
                        lemma_same_place(s[b], k);
                    }
                }
                lemma_filter_at_most_one(s, p);
                assert(ranked_with(r, k, leq) == ranked_with(s, k, leq));
            }
        }
    }
    assert forall|i: int, j: int|
        0 <= i < r.len() && 0 <= j < r.len() && parts(#[trigger] r[i]).len() < parts(
            #[trigger] r[j],
        ).len() implies i < j by {
        if j <= i {
            assert(leq(r[j], r[i]));
        }
    }
}

/// What is found at a path, links not followed.
#[derive(Debug, Clone, Copy, PartialEq, Eq, Structural)]
pub enum EntryKind {
    /// Nothing that can be looked at.
    Missing,
    Symlink,
    Directory,
    /// A regular file of this many bytes.
    File(u64),
    Other,
}

/// Why there is nothing to push.
#[derive(Debug)]
pub enum InventoryError {
    SourceNotFound(String),
    SourceNotDirectory(UnixPath),
    EmptyManifest,
    UnsafeEntry(String),
    DuplicateEntry(String),
    SelectedNotFound(UnixPath),
    Symlink(UnixPath),
    NotRegularFile(UnixPath),
    UnreadableDirectory(UnixPath),
    UnreadableEntry(UnixPath),
    UnreadablePath(UnixPath),
    Unsupported(UnixPath),
    NoFiles,
}

/// Why there is nothing to push, as a specification speaks of it.
pub enum Refusal {
    SourceNotFound(Seq<char>),
    SourceNotDirectory(Seq<u8>),
    EmptyManifest,
    UnsafeEntry(Seq<char>),
    DuplicateEntry(Seq<char>),
    SelectedNotFound(Seq<u8>),
    Symlink(Seq<u8>),
    NotRegularFile(Seq<u8>),
    UnreadableDirectory(Seq<u8>),
    UnreadableEntry(Seq<u8>),
    UnreadablePath(Seq<u8>),
    Unsupported(Seq<u8>),
    NoFiles,
}

impl View for InventoryError {
    type V = Refusal;

    open spec fn view(&self) -> Refusal {
        match self {
            InventoryError::SourceNotFound(s) => Refusal::SourceNotFound(s@),
            InventoryError::SourceNotDirectory(p) => Refusal::SourceNotDirectory(p@),
            InventoryError::EmptyManifest => Refusal::EmptyManifest,
            InventoryError::UnsafeEntry(s) => Refusal::UnsafeEntry(s@),
            InventoryError::DuplicateEntry(s) => Refusal::DuplicateEntry(s@),
            InventoryError::SelectedNotFound(p) => Refusal::SelectedNotFound(p@),
            InventoryError::Symlink(p) => Refusal::Symlink(p@),
            InventoryError::NotRegularFile(p) => Refusal::NotRegularFile(p@),
            InventoryError::UnreadableDirectory(p) => Refusal::UnreadableDirectory(p@),
            InventoryError::UnreadableEntry(p) => Refusal::UnreadableEntry(p@),
            InventoryError::UnreadablePath(p) => Refusal::UnreadablePath(p@),
            InventoryError::Unsupported(p) => Refusal::Unsupported(p@),
            InventoryError::NoFiles => Refusal::NoFiles,
        }
    }
}

/// The text that a byte string is shown as: what `String::from_utf8_lossy` makes of it.
pub uninterp spec fn lossy_text(bytes: Seq<u8>) -> Seq<char>;

/// Calls `String::from_utf8_lossy`. Its result depends on the bytes alone, and where they are
/// valid UTF-8 it is the text that they encode. What stands for bytes that are not is left
/// unsaid.
#[verifier::external_body]
fn show_bytes(bytes: &Vec<u8>) -> (r: String)
    ensures
        r@ == lossy_text(bytes@),
        valid_utf8(bytes@) ==> r@ == decode_utf8(bytes@),
{
    String::from_utf8_lossy(bytes).into_owned()
}

impl Refusal {
    /// What is wrong, in words.
    pub open spec fn text(self) -> Seq<char> {
        match self {
            Refusal::SourceNotFound(s) => "source path not found: "@ + s,
            Refusal::SourceNotDirectory(p) => "source is not a directory: "@ + lossy_text(p),
            Refusal::EmptyManifest => "selected file manifest is empty"@,
            Refusal::UnsafeEntry(s) => "selected file must be a safe relative path: "@ + s,
            Refusal::DuplicateEntry(s) => "duplicate selected file in manifest: "@ + s,
            Refusal::SelectedNotFound(p) => "selected file not found: "@ + lossy_text(p),
            Refusal::Symlink(p) => "prototype does not support symlinks: "@ + lossy_text(p),
            Refusal::NotRegularFile(p) => "prototype only supports regular files: "@ + lossy_text(
                p,
            ),
            Refusal::UnreadableDirectory(p) => "read directory: "@ + lossy_text(p),
            Refusal::UnreadableEntry(p) => "read dir entry: "@ + lossy_text(p),
            Refusal::UnreadablePath(p) => "stat path: "@ + lossy_text(p),
            Refusal::Unsupported(p) => "prototype only supports regular files and directories: "@
                + lossy_text(p),
            Refusal::NoFiles => "source has no regular files to transfer"@,
        }
    }

    /// The path that it is about, where it is about one.
    pub open spec fn path(self) -> Option<Seq<u8>> {
        match self {
            Refusal::SourceNotDirectory(p) => Some(p),
            Refusal::SelectedNotFound(p) => Some(p),
            Refusal::Symlink(p) => Some(p),
            Refusal::NotRegularFile(p) => Some(p),
            Refusal::UnreadableDirectory(p) => Some(p),
            Refusal::UnreadableEntry(p) => Some(p),
            Refusal::UnreadablePath(p) => Some(p),
            Refusal::Unsupported(p) => Some(p),
            _ => None,
        }
    }
}

/// `head` with a path behind it.
fn with_path(head: &str, path: &UnixPath) -> (r: String)
    ensures
        r@ == head@ + lossy_text(path@),
        valid_utf8(path@) ==> lossy_text(path@) == decode_utf8(path@),
{
    let shown: String = show_bytes(&path.bytes);
    head.to_owned().concat(shown.as_str())
}

impl InventoryError {
    /// Says what is wrong. A path that is text is shown as it is.
    pub fn message(&self) -> (r: String)
        ensures
            r@ == self@.text(),
            match self@.path() {
                Some(p) => valid_utf8(p) ==> lossy_text(p) == decode_utf8(p),
                None => true,
            },
    {
        match self {
            InventoryError::SourceNotFound(s) => "source path not found: ".to_owned().concat(
                s.as_str(),
            ),
            InventoryError::SourceNotDirectory(p) => with_path("source is not a directory: ", p),
            InventoryError::EmptyManifest => "selected file manifest is empty".to_owned(),
            InventoryError::UnsafeEntry(
                s,
            ) => "selected file must be a safe relative path: ".to_owned().concat(s.as_str()),
            InventoryError::DuplicateEntry(
                s,
            ) => "duplicate selected file in manifest: ".to_owned().concat(s.as_str()),
            InventoryError::SelectedNotFound(p) => with_path("selected file not found: ", p),
            InventoryError::Symlink(p) => with_path("prototype does not support symlinks: ", p),
            InventoryError::NotRegularFile(p) => with_path(
                "prototype only supports regular files: ",
                p,
            ),
            InventoryError::UnreadableDirectory(p) => with_path("read directory: ", p),
            InventoryError::UnreadableEntry(p) => with_path("read dir entry: ", p),
            InventoryError::UnreadablePath(p) => with_path("stat path: ", p),
            InventoryError::Unsupported(p) => with_path(
                "prototype only supports regular files and directories: ",
                p,
            ),
            InventoryError::NoFiles => "source has no regular files to transfer".to_owned(),
        }
    }
}

/// Whether two refusals say the same of a path each.
pub open spec fn same_complaint(a: Refusal, b: Refusal) -> bool {
    match (a, b) {
        (Refusal::SourceNotDirectory(_), Refusal::SourceNotDirectory(_)) => true,
        (Refusal::SelectedNotFound(_), Refusal::SelectedNotFound(_)) => true,
        (Refusal::Symlink(_), Refusal::Symlink(_)) => true,
        (Refusal::NotRegularFile(_), Refusal::NotRegularFile(_)) => true,
        (Refusal::UnreadableDirectory(_), Refusal::UnreadableDirectory(_)) => true,
        (Refusal::UnreadableEntry(_), Refusal::UnreadableEntry(_)) => true,
        (Refusal::UnreadablePath(_), Refusal::UnreadablePath(_)) => true,
        (Refusal::Unsupported(_), Refusal::Unsupported(_)) => true,
        _ => false,
    }
}

/// The words of a refusal end with the path that it is about, and what stands ahead of it does not
/// depend on the path.
pub proof fn lemma_path_told(a: Refusal, b: Refusal)
    requires
        same_complaint(a, b),
    ensures
        ({
            let p = lossy_text(a.path().unwrap());
            let q = lossy_text(b.path().unwrap());
            let x = a.text().len() - p.len();
            let y = b.text().len() - q.len();
            &&& a.path() is Some && b.path() is Some
            &&& 0 <= x && 0 <= y
            &&& a.text().skip(x) == p
            &&& b.text().skip(y) == q
            &&& a.text().take(x) == b.text().take(y)
        }),
{
    let p = lossy_text(a.path().unwrap());
    let q = lossy_text(b.path().unwrap());
    let x = a.text().len() - p.len();
    let y = b.text().len() - q.len();
    assert(a.text().skip(x) =~= p);
    assert(b.text().skip(y) =~= q);
    assert(a.text().take(x) =~= b.text().take(y));
}

/// A source or an entry that is refused is told as it was given.
pub proof fn lemma_entry_told(s: Seq<char>)
    ensures
        Refusal::SourceNotFound(s).text() == Refusal::SourceNotFound(Seq::empty()).text() + s,
        Refusal::UnsafeEntry(s).text() == Refusal::UnsafeEntry(Seq::empty()).text() + s,
        Refusal::DuplicateEntry(s).text() == Refusal::DuplicateEntry(Seq::empty()).text() + s,
{
    let none = Seq::<char>::empty();
    assert("source path not found: "@ + none =~= "source path not found: "@);
    assert("selected file must be a safe relative path: "@ + none
        =~= "selected file must be a safe relative path: "@);
    assert("duplicate selected file in manifest: "@ + none
        =~= "duplicate selected file in manifest: "@);
}

} // verus!
