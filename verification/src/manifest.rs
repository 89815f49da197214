//! The inventory of files that are named one by one.

use vstd::hash_set::StringHashSet;
use vstd::prelude::*;
use vstd::utf8::encode_utf8;

use crate::inventory::{
    covers, distinct_places, file_views, holds_directory, is_needed, lemma_laid_out, needed,
    EntryKind, Inventory, InventoryError, Load, PushFile, Pushed, Refusal,
};
use crate::order::sorted_as;
use crate::path::{
    depth_order, inner_parts, is_safe_relative, join, lead, lemma_inner_parts, lemma_join_parts,
    lemma_lead_parts, parts, path_views, sort_paths, Part, UnixPath,
};
use crate::text::views;

verus! {

/// How far the look at a manifest has come.
pub struct ManifestState {
    pub root: Seq<u8>,
    pub selected: Seq<Seq<char>>,
    /// How many entries have been found to be files.
    pub done: int,
    pub directories: Seq<Seq<u8>>,
    pub files: Seq<Pushed>,
    pub total_bytes: int,
}

/// `dirs` with `p`, unless it is there.
pub open spec fn with_directory(dirs: Seq<Seq<u8>>, p: Seq<u8>) -> Seq<Seq<u8>> {
    if holds_directory(dirs, p) {
        dirs
    } else {
        dirs.push(p)
    }
}

/// `dirs` with the paths of the first `k`, `k - 1` and so on down to one component of `p`.
pub open spec fn with_leads(dirs: Seq<Seq<u8>>, p: Seq<u8>, k: int) -> Seq<Seq<u8>>
    decreases k,
{
    if k <= 0 {
        dirs
    } else {
        with_leads(with_directory(dirs, lead(p, k)), p, k - 1)
    }
}

/// `dirs` with every directory above `p`.
pub open spec fn with_ancestors(dirs: Seq<Seq<u8>>, p: Seq<u8>) -> Seq<Seq<u8>> {
    with_leads(dirs, p, parts(p).len() - 1)
}

impl ManifestState {
    /// Before any entry has been looked at.
    pub open spec fn start(root: Seq<u8>, selected: Seq<Seq<char>>) -> ManifestState {
        ManifestState {
            root,
            selected,
            done: 0,
            directories: Seq::empty(),
            files: Seq::empty(),
            total_bytes: 0,
        }
    }

    pub open spec fn entry(self) -> Seq<char> {
        self.selected[self.done]
    }

    pub open spec fn relative(self) -> Seq<u8> {
        encode_utf8(self.entry())
    }

    pub open spec fn local(self) -> Seq<u8> {
        join(self.root, self.relative())
    }

    /// The path to look at next; none when all entries have been looked at. An entry that may
    /// lead out of the root, or that came before, is refused without a look.
    pub open spec fn request(self) -> Result<Option<Seq<u8>>, Refusal> {
        if self.done >= self.selected.len() {
            Ok(None)
        } else if !is_safe_relative(self.relative()) {
            Err(Refusal::UnsafeEntry(self.entry()))
        } else if self.selected.take(self.done).contains(self.entry()) {
            Err(Refusal::DuplicateEntry(self.entry()))
        } else {
            Ok(Some(self.local()))
        }
    }

    /// What follows from what was found at the requested path.
    pub open spec fn answer(self, found: EntryKind) -> Result<ManifestState, Refusal> {
        match found {
            EntryKind::Missing => Err(Refusal::SelectedNotFound(self.local())),
            EntryKind::Symlink => Err(Refusal::Symlink(self.local())),
            EntryKind::Directory => Err(Refusal::NotRegularFile(self.local())),
            EntryKind::Other => Err(Refusal::NotRegularFile(self.local())),
            EntryKind::File(size) => Ok(
                ManifestState {
                    done: self.done + 1,
                    directories: with_ancestors(self.directories, self.relative()),
                    files: self.files.push(
                        Pushed { local: self.local(), relative: self.relative() },
                    ),
                    total_bytes: self.total_bytes + size,
                    ..self
                },
            ),
        }
    }
}

/// A look at the entries of a manifest, one after the other.
pub struct ManifestScan {
    root: UnixPath,
    selected: Vec<String>,
    done: usize,
    seen: StringHashSet,
    directories: Vec<UnixPath>,
    files: Vec<PushFile>,
    total_bytes: u64,
}

impl View for ManifestScan {
    type V = ManifestState;

    closed spec fn view(&self) -> ManifestState {
        ManifestState {
            root: self.root@,
            selected: views(self.selected@),
            done: self.done as int,
            directories: path_views(self.directories@),
            files: file_views(self.files@),
            total_bytes: self.total_bytes as int,
        }
    }
}

impl ManifestScan {
    /// Whether the scan remembers the entries that it has been through.
    pub closed spec fn wf(&self) -> bool {
        &&& self.done <= self.selected@.len()
        &&& self.seen@ == views(self.selected@).take(self.done as int).to_set()
    }

    /// Starts a scan of `selected` under `root`.
    pub fn start(root: UnixPath, selected: Vec<String>) -> (r: ManifestScan)
        ensures
            r.wf(),
            r@ == ManifestState::start(root@, views(selected@)),
    {
        let r: ManifestScan = ManifestScan {
            root,
            selected,
            done: 0,
            seen: StringHashSet::new(),
            directories: Vec::new(),
            files: Vec::new(),
            total_bytes: 0,
        };
        proof {
            assert(views(selected@).take(0).to_set() =~= Set::empty());
            assert(r@.directories =~= Seq::empty());
            assert(r@.files =~= Seq::empty());
        }
        r
    }

    /// The path to look at next.
    pub fn request(&self) -> (r: Result<Option<UnixPath>, InventoryError>)
        requires
            self.wf(),
        ensures
            match self@.request() {
                Ok(Some(p)) => r matches Ok(Some(q)) && q@ == p,
                Ok(None) => r == Ok::<Option<UnixPath>, InventoryError>(None),
                Err(refusal) => r matches Err(e) && e@ == refusal,
            },
    {
        if self.done >= self.selected.len() {
            return Ok(None);
        }
        let entry: &String = &self.selected[self.done];
        assert(entry@ == self@.entry());
        let rel: UnixPath = UnixPath::from_text(entry.as_str());
        if !rel.safe_relative() {
            return Err(InventoryError::UnsafeEntry(entry.as_str().to_owned()));
        }
        if self.seen.contains(entry.as_str()) {
            return Err(InventoryError::DuplicateEntry(entry.as_str().to_owned()));
        }
        Ok(Some(self.root.join(&rel)))
    }

    /// The bytes of the files found so far.
    pub fn total_bytes(&self) -> (r: u64)
        ensures
            r == self@.total_bytes,
    {
        self.total_bytes
    }

    /// Takes in what was found at the requested path. The sizes of all files together must be
    /// countable.
    pub fn answer(&mut self, found: EntryKind) -> (r: Result<(), InventoryError>)
        requires
            old(self).wf(),
            old(self)@.request() matches Ok(Some(_)),
            found matches EntryKind::File(size) ==> old(self)@.total_bytes + size <= u64::MAX,
        ensures
            final(self).wf(),
            match old(self)@.answer(found) {
                Ok(next) => r is Ok && final(self)@ == next,
                Err(refusal) => r matches Err(e) && e@ == refusal && final(self)@ == old(self)@,
            },
    {
        let ghost before = self@;
        let entry: String = self.selected[self.done].clone();
        assert(entry@ == before.entry());
        let rel: UnixPath = UnixPath::from_text(entry.as_str());
        let local: UnixPath = self.root.join(&rel);
        match found {
            EntryKind::Missing => Err(InventoryError::SelectedNotFound(local)),
            EntryKind::Symlink => Err(InventoryError::Symlink(local)),
            EntryKind::Directory => Err(InventoryError::NotRegularFile(local)),
            EntryKind::Other => Err(InventoryError::NotRegularFile(local)),
            EntryKind::File(size) => {
                let ghost seen0 = self.seen@;
                let ghost done0 = self.done as int;
                let ghost all = views(self.selected@);
                let ghost files0 = self.files@;
                assert(self.done < self.selected.len());
                add_ancestors(&mut self.directories, &rel);
                self.total_bytes = self.total_bytes + size;
                self.files.push(PushFile { local_path: local, relative_path: rel });
                self.seen.insert(entry);
                self.done = self.done + 1;
                proof {
                    assert(all.take(done0 + 1) =~= all.take(done0).push(entry@));
                    all.take(done0).lemma_push_to_set_commute(entry@);
                    assert(file_views(self.files@) =~= file_views(files0).push(
                        Pushed { local: local@, relative: rel@ },
                    ));
                }
                Ok(())
            },
        }
    }

    /// What the files of the manifest come to.
    pub fn finish(self) -> (r: Inventory)
        requires
            self.wf(),
            self@.request() == Ok::<Option<Seq<u8>>, Refusal>(None),
        ensures
            sorted_as(r@.directories, self@.directories, depth_order()),
            r@.files == self@.files,
            r@.total_bytes == self@.total_bytes,
            r.total_bytes == self@.total_bytes,
            r.files@.len() == self@.files.len(),
            forall|i: int|
                0 <= i < r.files@.len() ==> (#[trigger] r.files@[i]).local_path@
                    == self@.files[i].local && r.files@[i].relative_path@
                    == self@.files[i].relative,
    {
        let directories: Vec<UnixPath> = sort_paths(self.directories);
        proof {
            assert forall|i: int| 0 <= i < self.files@.len() implies (
            #[trigger] self.files@[i])@ == self@.files[i] by {
                assert(file_views(self.files@)[i] == self.files@[i]@);
            }
        }
        Inventory { directories, files: self.files, total_bytes: self.total_bytes }
    }
}

/// Adds every directory above `rel` that is not in the list.
fn add_ancestors(dirs: &mut Vec<UnixPath>, rel: &UnixPath)
    ensures
        path_views(final(dirs)@) == with_ancestors(path_views(old(dirs)@), rel@),
{
    let above: Vec<UnixPath> = rel.ancestors();
    let ghost n = parts(rel@).len() - 1;
    let mut i: usize = 0;
    while i < above.len()
        invariant
            n == parts(rel@).len() - 1,
            above@.len() == if n < 0 {
                0
            } else {
                n
            },
            i <= above.len(),
            forall|k: int| 0 <= k < above@.len() ==> (#[trigger] above@[k])@ == lead(rel@, n - k),
            with_leads(path_views(dirs@), rel@, n - i) == with_ancestors(
                path_views(old(dirs)@),
                rel@,
            ),
        decreases above.len() - i,
    {
        let dir: UnixPath = above[i].clone();
        assert(dir@ == lead(rel@, n - i));
        let ghost dirs0 = dirs@;
        if !holds(dirs, &dir) {
            dirs.push(dir);
            assert(path_views(dirs@) =~= path_views(dirs0).push(dir@));
        }
        i += 1;
    }
}

/// Whether the list holds a directory with the components of `p`.
fn holds(dirs: &Vec<UnixPath>, p: &UnixPath) -> (r: bool)
    ensures
        r == holds_directory(path_views(dirs@), p@),
{
    let ghost all = path_views(dirs@);
    let mut i: usize = 0;
    while i < dirs.len()
        invariant
            all == path_views(dirs@),
            i <= dirs.len(),
            forall|k: int| 0 <= k < i ==> parts(#[trigger] all[k]) != parts(p@),
        decreases dirs.len() - i,
    {
        if dirs[i].same_place(p) {
            assert(all[i as int] == dirs[i as int]@);
            return true;
        }
        assert(all[i as int] == dirs[i as int]@);
        i += 1;
    }
    false
}

/// What adding a directory adds.
proof fn lemma_with_directory(dirs: Seq<Seq<u8>>, p: Seq<u8>, q: Seq<u8>)
    ensures
        holds_directory(with_directory(dirs, p), q) <==> holds_directory(dirs, q) || parts(q)
            == parts(p),
{
    let next = with_directory(dirs, p);
    if holds_directory(dirs, p) {
        if parts(q) == parts(p) {
            let i = choose|i: int| 0 <= i < dirs.len() && parts(#[trigger] dirs[i]) == parts(p);
            assert(parts(dirs[i]) == parts(q));
        }
    } else {
        if holds_directory(dirs, q) {
            let i = choose|i: int| 0 <= i < dirs.len() && parts(#[trigger] dirs[i]) == parts(q);
            assert(next[i] == dirs[i]);
        }
        if parts(q) == parts(p) {
            assert(parts(next[dirs.len() as int]) == parts(q));
        }
        if holds_directory(next, q) {
            let i = choose|i: int| 0 <= i < next.len() && parts(#[trigger] next[i]) == parts(q);
            if i < dirs.len() {
                assert(parts(dirs[i]) == parts(q));
            }
        }
    }
}

/// Whether `q` is the place of the first one to `k` components of `p`.
spec fn on_way(q: Seq<u8>, p: Seq<u8>, k: int) -> bool {
    exists|j: int| 1 <= j <= k && parts(q) == #[trigger] parts(p).take(j)
}

proof fn lemma_on_way(q: Seq<u8>, p: Seq<u8>, k: int)
    requires
        k > 0,
    ensures
        on_way(q, p, k) <==> on_way(q, p, k - 1) || parts(q) == parts(p).take(k),
{
    if on_way(q, p, k - 1) {
        let j = choose|j: int| 1 <= j <= k - 1 && parts(q) == #[trigger] parts(p).take(j);
        assert(1 <= j <= k && parts(q) == parts(p).take(j));
    }
    if parts(q) == parts(p).take(k) {
        assert(1 <= k <= k && parts(q) == parts(p).take(k));
    }
    if on_way(q, p, k) {
        let j = choose|j: int| 1 <= j <= k && parts(q) == #[trigger] parts(p).take(j);
        if j < k {
            assert(1 <= j <= k - 1 && parts(q) == parts(p).take(j));
        }
    }
}

/// What adding the directories above a path adds.
#[verifier::spinoff_prover]
proof fn lemma_with_leads(dirs: Seq<Seq<u8>>, p: Seq<u8>, k: int)
    requires
        k <= parts(p).len(),
    ensures
        forall|q: Seq<u8>| #[trigger]
            holds_directory(with_leads(dirs, p, k), q) <==> holds_directory(dirs, q) || on_way(
                q,
                p,
                k,
            ),
        distinct_places(dirs) ==> distinct_places(with_leads(dirs, p, k)),
    decreases k,
{
    if k > 0 {
        let next = with_directory(dirs, lead(p, k));
        lemma_lead_parts(p, k);
        lemma_with_leads(next, p, k - 1);
        assert forall|q: Seq<u8>| #[trigger]
            holds_directory(with_leads(dirs, p, k), q) <==> holds_directory(dirs, q) || on_way(
                q,
                p,
                k,
            ) by {
            assert(holds_directory(with_leads(next, p, k - 1), q) <==> holds_directory(next, q)
                || on_way(q, p, k - 1));
            lemma_with_directory(dirs, lead(p, k), q);
            lemma_on_way(q, p, k);
        }
        if distinct_places(dirs) && !holds_directory(dirs, lead(p, k)) {
            assert forall|i: int, j: int| 0 <= i < j < next.len() implies parts(#[trigger] next[i])
                != parts(#[trigger] next[j]) by {
                assert(next[i] == dirs[i]);
                if j < dirs.len() {
                    assert(next[j] == dirs[j]);
                }
            }
        }
    }
}

impl ManifestState {
    /// What holds of the state at every step: the files are the entries so far, each of them
    /// safe and no two the same, and the directories are those above the files, each once.
    pub open spec fn sound(self) -> bool {
        &&& 0 <= self.done <= self.selected.len()
        &&& self.files.len() == self.done
        &&& forall|i: int|
            0 <= i < self.done ==> {
                &&& (#[trigger] self.files[i]).relative == encode_utf8(self.selected[i])
                &&& self.files[i].local == join(self.root, self.files[i].relative)
                &&& is_safe_relative(self.files[i].relative)
            }
        &&& forall|i: int, j: int|
            0 <= i < j < self.done ==> #[trigger] self.selected[i] != #[trigger] self.selected[j]
        &&& distinct_places(self.directories)
        &&& covers(self.directories, self.files)
        &&& needed(self.directories, self.files)
    }
}

/// A scan starts with a sound state.
pub proof fn lemma_manifest_starts_sound(root: Seq<u8>, selected: Seq<Seq<char>>)
    ensures
        ManifestState::start(root, selected).sound(),
{
}

/// Taking in a file keeps the state sound.
pub proof fn lemma_manifest_stays_sound(st: ManifestState, found: EntryKind)
    requires
        st.sound(),
        st.request() matches Ok(Some(_)),
    ensures
        st.answer(found) matches Ok(next) ==> next.sound(),
{
    if let Ok(next) = st.answer(found) {
        let rel = st.relative();
        let n = parts(rel).len() - 1;
        lemma_with_leads(st.directories, rel, n);
        assert forall|i: int, j: int| 0 <= i < j < next.done implies #[trigger] next.selected[i]
            != #[trigger] next.selected[j] by {
            if j == st.done {
                let before = st.selected.take(st.done);
                assert(before[i] == st.selected[i]);
            }
        }
        assert forall|i: int, k: int|
            0 <= i < next.files.len() && 1 <= k < parts(
                (#[trigger] next.files[i]).relative,
            ).len() implies holds_directory(
            next.directories,
            #[trigger] lead(next.files[i].relative, k),
        ) by {
            let f = next.files[i].relative;
            lemma_lead_parts(f, k);
            if i < st.done {
                assert(next.files[i] == st.files[i]);
                assert(holds_directory(st.directories, lead(st.files[i].relative, k)));
            } else {
                assert(f == rel);
                assert(parts(lead(f, k)) == parts(rel).take(k));
                assert(on_way(lead(f, k), rel, n));
            }
        }
        assert forall|d: int| 0 <= d < next.directories.len() implies #[trigger] is_needed(
            next.directories[d],
            next.files,
        ) by {
            let q = next.directories[d];
            assert(holds_directory(next.directories, q));
            if holds_directory(st.directories, q) {
                let e = choose|e: int|
                    0 <= e < st.directories.len() && parts(#[trigger] st.directories[e])
                        == parts(q);
                assert(is_needed(st.directories[e], st.files));
                let (i, k) = choose|i: int, k: int|
                    0 <= i < st.files.len() && 1 <= k < parts(
                        (#[trigger] st.files[i]).relative,
                    ).len() && parts(st.directories[e]) == #[trigger] parts(
                        st.files[i].relative,
                    ).take(k);
                assert(next.files[i] == st.files[i]);
                assert(parts(q) == parts(next.files[i].relative).take(k));
            } else {
                assert(on_way(q, rel, n));
                let j = choose|j: int| 1 <= j <= n && parts(q) == #[trigger] parts(rel).take(j);
                assert(next.files[st.done].relative == rel);
                assert(parts(q) == parts(next.files[st.done].relative).take(j));
            }
        }
    }
}

/// A path that is asked for lies under the root: behind the components of the root come names
/// only.
pub proof fn lemma_selected_stays_inside(st: ManifestState)
    requires
        st.root.len() > 0,
    ensures
        st.request() matches Ok(Some(p)) ==> {
            &&& parts(p) == parts(st.root) + inner_parts(st.relative())
            &&& forall|i: int|
                0 <= i < inner_parts(st.relative()).len() ==> #[trigger] inner_parts(
                    st.relative(),
                )[i] is Normal
        },
{
    if let Ok(Some(p)) = st.request() {
        let rel = st.relative();
        lemma_join_parts(st.root, rel);
        lemma_inner_parts(rel);
        assert forall|i: int| 0 <= i < inner_parts(rel).len() implies #[trigger] inner_parts(
            rel,
        )[i] is Normal by {
            if parts(rel).len() > 0 && parts(rel)[0] == Part::CurDir {
                assert(inner_parts(rel)[i] == parts(rel)[i + 1]);
            } else {
                assert(inner_parts(rel)[i] == parts(rel)[i]);
            }
        }
    }
}

/// The state after `found` was found at the entries, one after the other.
pub open spec fn after(st: ManifestState, found: Seq<EntryKind>) -> Result<ManifestState, Refusal>
    decreases found.len(),
{
    if found.len() == 0 {
        Ok(st)
    } else {
        match after(st, found.drop_last()) {
            Err(refusal) => Err(refusal),
            Ok(mid) => match mid.request() {
                Err(refusal) => Err(refusal),
                Ok(None) => Ok(mid),
                Ok(Some(_)) => mid.answer(found.last()),
            },
        }
    }
}

/// The bytes of the files among what was found.
pub open spec fn total_size(found: Seq<EntryKind>) -> int
    decreases found.len(),
{
    if found.len() == 0 {
        0
    } else {
        total_size(found.drop_last()) + match found.last() {
            EntryKind::File(size) => size as int,
            _ => 0,
        }
    }
}

/// Whether the entry at `i` is one to push: safe, not named before, and a file.
pub open spec fn acceptable(selected: Seq<Seq<char>>, found: Seq<EntryKind>, i: int) -> bool {
    &&& is_safe_relative(encode_utf8(selected[i]))
    &&& !selected.take(i).contains(selected[i])
    &&& found[i] is File
}

/// The entries of a manifest are taken in exactly if each of them is acceptable. Then the state
/// is sound, and the bytes are those of all the files together.
pub proof fn lemma_manifest_outcome(
    root: Seq<u8>,
    selected: Seq<Seq<char>>,
    found: Seq<EntryKind>,
)
    requires
        found.len() <= selected.len(),
    ensures
        after(ManifestState::start(root, selected), found) is Ok <==> forall|i: int|
            0 <= i < found.len() ==> #[trigger] acceptable(selected, found, i),
        after(ManifestState::start(root, selected), found) matches Ok(st) ==> {
            &&& st.sound()
            &&& st.root == root
            &&& st.selected == selected
            &&& st.done == found.len()
            &&& st.total_bytes == total_size(found)
        },
    decreases found.len(),
{
    let start = ManifestState::start(root, selected);
    if found.len() == 0 {
        lemma_manifest_starts_sound(root, selected);
    } else {
        let front = found.drop_last();
        let n = front.len() as int;
        lemma_manifest_outcome(root, selected, front);
        assert forall|i: int| 0 <= i < n implies acceptable(selected, found, i) == #[trigger] acceptable(
            selected,
            front,
            i,
        ) by {}
        if let Ok(mid) = after(start, front) {
            assert(mid.entry() == selected[n]);
            if mid.request() matches Ok(Some(_)) {
                lemma_manifest_stays_sound(mid, found.last());
            }
            assert(after(start, found) is Ok <==> acceptable(selected, found, n));
            assert forall|i: int| 0 <= i < n implies #[trigger] acceptable(selected, found, i) by {
                assert(acceptable(selected, front, i));
            }
        } else {
            let i = choose|i: int| 0 <= i < n && !#[trigger] acceptable(selected, front, i);
            assert(!acceptable(selected, found, i));
        }
    }
}

/// Whether `dir` is the path of a directory above one of the files, as that file spells it.
pub open spec fn leads_to(dir: Seq<u8>, files: Seq<Pushed>) -> bool {
    exists|i: int, k: int|
        0 <= i < files.len() && 1 <= k < parts((#[trigger] files[i]).relative).len() && dir
            == #[trigger] lead(files[i].relative, k)
}

proof fn lemma_added_leads(dirs: Seq<Seq<u8>>, p: Seq<u8>, k: int)
    ensures
        forall|q: Seq<u8>| #[trigger]
            with_leads(dirs, p, k).contains(q) ==> dirs.contains(q) || exists|j: int|
                1 <= j <= k && q == #[trigger] lead(p, j),
    decreases k,
{
    if k > 0 {
        let next = with_directory(dirs, lead(p, k));
        lemma_added_leads(next, p, k - 1);
        assert forall|q: Seq<u8>| #[trigger] with_leads(dirs, p, k).contains(q) implies dirs.contains(
            q,
        ) || exists|j: int| 1 <= j <= k && q == #[trigger] lead(p, j) by {
            assert(with_leads(next, p, k - 1).contains(q));
            if next.contains(q) {
                let i = choose|i: int| 0 <= i < next.len() && next[i] == q;
                if i < dirs.len() {
                    assert(dirs[i] == q);
                } else {
                    assert(1 <= k <= k && q == lead(p, k));
                }
            } else {
                let j = choose|j: int| 1 <= j <= k - 1 && q == #[trigger] lead(p, j);
                assert(1 <= j <= k && q == lead(p, j));
            }
        }
    }
}

/// The directories of a manifest are spelled as its files spell them.
pub proof fn lemma_manifest_spelling(
    root: Seq<u8>,
    selected: Seq<Seq<char>>,
    found: Seq<EntryKind>,
)
    ensures
        after(ManifestState::start(root, selected), found) matches Ok(st) ==> forall|q: Seq<u8>|
            #[trigger] st.directories.contains(q) ==> leads_to(q, st.files),
    decreases found.len(),
{
    let start = ManifestState::start(root, selected);
    if found.len() > 0 {
        lemma_manifest_spelling(root, selected, found.drop_last());
        if let Ok(st) = after(start, found) {
            let mid = after(start, found.drop_last())->Ok_0;
            if mid.request()->Ok_0 is Some {
                let rel = mid.relative();
                lemma_added_leads(mid.directories, rel, parts(rel).len() - 1);
                assert forall|q: Seq<u8>| #[trigger] st.directories.contains(q) implies leads_to(
                    q,
                    st.files,
                ) by {
                    if mid.directories.contains(q) {
                        let (i, k) = choose|i: int, k: int|
                            0 <= i < mid.files.len() && 1 <= k < parts(
                                (#[trigger] mid.files[i]).relative,
                            ).len() && q == #[trigger] lead(mid.files[i].relative, k);
                        assert(st.files[i] == mid.files[i]);
                        assert(q == lead(st.files[i].relative, k));
                    } else {
                        let j = choose|j: int|
                            1 <= j <= parts(rel).len() - 1 && q == #[trigger] lead(rel, j);
                        let last = mid.files.len() as int;
                        assert(st.files[last].relative == rel);
                        assert(q == lead(st.files[last].relative, j));
                    }
                }
            }
        }
    }
}

/// The inventory of a manifest holds every directory above a file, no other, each once, and
/// each behind those above it.
pub proof fn lemma_manifest_inventory(st: ManifestState, load: Load)
    requires
        st.sound(),
        sorted_as(load.directories, st.directories, depth_order()),
        load.files == st.files,
    ensures
        covers(load.directories, load.files),
        needed(load.directories, load.files),
        distinct_places(load.directories),
        forall|i: int, j: int|
            0 <= i < load.directories.len() && 0 <= j < load.directories.len() && parts(
                #[trigger] load.directories[i],
            ).len() < parts(#[trigger] load.directories[j]).len() ==> i < j,
{
    let r = load.directories;
    let s = st.directories;
    lemma_laid_out(r, s);
    assert forall|d: int| 0 <= d < r.len() implies #[trigger] is_needed(r[d], load.files) by {
        assert(holds_directory(r, r[d]));
        assert(holds_directory(s, r[d]));
        let e = choose|e: int| 0 <= e < s.len() && parts(#[trigger] s[e]) == parts(r[d]);
        assert(is_needed(s[e], st.files));
        let (i, k) = choose|i: int, k: int|
            0 <= i < st.files.len() && 1 <= k < parts((#[trigger] st.files[i]).relative).len()
                && parts(s[e]) == #[trigger] parts(st.files[i].relative).take(k);
        assert(parts(r[d]) == parts(load.files[i].relative).take(k));
    }
}

/// The bytes of what was found in two stretches are those of each together; a file counts its size,
/// and nothing else counts.
pub proof fn lemma_total_size_joined(a: Seq<EntryKind>, b: Seq<EntryKind>, size: u64)
    ensures
        total_size(a + b) == total_size(a) + total_size(b),
        total_size(seq![EntryKind::File(size)]) == size,
        total_size(seq![EntryKind::Missing]) == 0,
        total_size(seq![EntryKind::Symlink]) == 0,
        total_size(seq![EntryKind::Directory]) == 0,
        total_size(seq![EntryKind::Other]) == 0,
        total_size(Seq::empty()) == 0,
    decreases b.len(),
{
    assert(forall|x: EntryKind| (#[trigger] seq![x]).drop_last() =~= Seq::<EntryKind>::empty());
    assert(total_size(Seq::empty()) == 0);
    if b.len() == 0 {
        assert(a + b =~= a);
    } else {
        lemma_total_size_joined(a, b.drop_last(), size);
        assert((a + b).drop_last() =~= a + b.drop_last());
    }
}

/// Behind a refusal nothing is looked at any more.
proof fn lemma_refusal_stays(st: ManifestState, found: Seq<EntryKind>, n: int)
    requires
        0 <= n <= found.len(),
        after(st, found.take(n)) is Err,
    ensures
        after(st, found) == after(st, found.take(n)),
    decreases found.len(),
{
    if n == found.len() {
        assert(found.take(n) =~= found);
    } else {
        assert(found.drop_last().take(n) =~= found.take(n));
        lemma_refusal_stays(st, found.drop_last(), n);
    }
}

/// The first entry of a manifest that is not one to push decides why it is refused: it may lead out
/// of the root, or came before, or is no regular file.
pub proof fn lemma_manifest_refusal(
    root: Seq<u8>,
    selected: Seq<Seq<char>>,
    found: Seq<EntryKind>,
    i: int,
)
    requires
        found.len() <= selected.len(),
        0 <= i < found.len(),
        forall|k: int| 0 <= k < i ==> #[trigger] acceptable(selected, found, k),
    ensures
        ({
            let end = after(ManifestState::start(root, selected), found);
            let rel = encode_utf8(selected[i]);
            let local = join(root, rel);
            let before = exists|k: int| 0 <= k < i && #[trigger] selected[k] == selected[i];
            if !is_safe_relative(rel) {
                end == Err::<ManifestState, Refusal>(Refusal::UnsafeEntry(selected[i]))
            } else if before {
                end == Err::<ManifestState, Refusal>(Refusal::DuplicateEntry(selected[i]))
            } else {
                match found[i] {
                    EntryKind::Missing => end == Err::<ManifestState, Refusal>(
                        Refusal::SelectedNotFound(local),
                    ),
                    EntryKind::Symlink => end == Err::<ManifestState, Refusal>(
                        Refusal::Symlink(local),
                    ),
                    EntryKind::Directory => end == Err::<ManifestState, Refusal>(
                        Refusal::NotRegularFile(local),
                    ),
                    EntryKind::Other => end == Err::<ManifestState, Refusal>(
                        Refusal::NotRegularFile(local),
                    ),
                    EntryKind::File(_) => after(
                        ManifestState::start(root, selected),
                        found.take(i + 1),
                    ) is Ok,
                }
            }
        }),
{
    let start = ManifestState::start(root, selected);
    let front = found.take(i);
    let upto = found.take(i + 1);
    lemma_manifest_outcome(root, selected, front);
    assert forall|k: int| 0 <= k < front.len() implies #[trigger] acceptable(
        selected,
        front,
        k,
    ) by {
        assert(acceptable(selected, found, k));
    }
    assert(upto.drop_last() =~= front);
    assert(upto.last() == found[i]);
    let taken = selected.take(i);
    if taken.contains(selected[i]) {
        let k = choose|k: int| 0 <= k < taken.len() && taken[k] == selected[i];
        assert(selected[k] == selected[i]);
    }
    if exists|k: int| 0 <= k < i && #[trigger] selected[k] == selected[i] {
        let k = choose|k: int| 0 <= k < i && #[trigger] selected[k] == selected[i];
        assert(taken[k] == selected[i]);
    }
    let mid = after(start, front)->Ok_0;
    assert(mid.entry() == selected[i]);
    if after(start, upto) is Err {
        lemma_refusal_stays(start, found, i + 1);
    }
}

/// A scan starts ahead of the first entry, with all the entries and nothing found.
pub proof fn lemma_manifest_starts(root: Seq<u8>, selected: Seq<Seq<char>>)
    ensures
        ({
            let st = ManifestState::start(root, selected);
            &&& st.root == root
            &&& st.selected == selected
            &&& st.done == 0
            &&& st.files.len() == 0 && st.directories.len() == 0 && st.total_bytes == 0
            &&& st.request() == Ok::<Option<Seq<u8>>, Refusal>(None) <==> selected.len() == 0
        }),
{
}

} // verus!
