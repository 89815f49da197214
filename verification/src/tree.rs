//! The inventory of everything under a directory.

use vstd::prelude::*;

use crate::inventory::{
    file_views, EntryKind, Inventory, InventoryError, PushFile, Pushed, Refusal,
};
use crate::order::sorted_as;
use crate::path::{
    depth_order, join, name_views, path_views, sort_names, sort_paths, sorted_names, FileName,
    UnixPath,
};

verus! {

/// A directory that is being gone through: its path from the root, and the names in it that
/// are still to be looked at.
pub struct Level {
    pub dir: Seq<u8>,
    pub names: Seq<Seq<u8>>,
}

/// How far the walk has come.
pub struct TreeState {
    pub root: Seq<u8>,
    /// The directory that is to be listed next, if one is.
    pub pending: Option<Seq<u8>>,
    /// The directories that are being gone through, the innermost last.
    pub levels: Seq<Level>,
    pub directories: Seq<Seq<u8>>,
    pub files: Seq<Pushed>,
    pub total_bytes: int,
}

/// What the walk needs to know next.
pub enum Want {
    /// The names in this directory.
    List(Seq<u8>),
    /// What is at this path.
    Look(Seq<u8>),
    Nothing,
}

/// The path of `rel` under `root`.
pub open spec fn under(root: Seq<u8>, rel: Seq<u8>) -> Seq<u8> {
    if rel.len() == 0 {
        root
    } else {
        join(root, rel)
    }
}

/// `levels` without the innermost ones that have nothing left to look at.
pub open spec fn settled(levels: Seq<Level>) -> Seq<Level>
    decreases levels.len(),
{
    if levels.len() > 0 && levels.last().names.len() == 0 {
        settled(levels.drop_last())
    } else {
        levels
    }
}

impl TreeState {
    /// Before the root has been listed.
    pub open spec fn start(root: Seq<u8>) -> TreeState {
        TreeState {
            root,
            pending: Some(Seq::empty()),
            levels: Seq::empty(),
            directories: Seq::empty(),
            files: Seq::empty(),
            total_bytes: 0,
        }
    }

    /// Whether the innermost level has something left to look at.
    pub open spec fn ready(self) -> bool {
        self.pending is None && self.levels.len() > 0 ==> self.levels.last().names.len() > 0
    }

    /// The path from the root of what is to be looked at next.
    pub open spec fn relative(self) -> Seq<u8> {
        join(self.levels.last().dir, self.levels.last().names[0])
    }

    pub open spec fn local(self) -> Seq<u8> {
        under(self.root, self.relative())
    }

    /// What the walk needs to know next.
    pub open spec fn request(self) -> Want {
        match self.pending {
            Some(dir) => Want::List(under(self.root, dir)),
            None => if self.levels.len() == 0 {
                Want::Nothing
            } else {
                Want::Look(self.local())
            },
        }
    }

    /// After the directory that was to be listed turned out to hold `names`.
    pub open spec fn listed(self, names: Seq<Seq<u8>>) -> TreeState {
        TreeState {
            pending: None,
            levels: settled(
                self.levels.push(Level { dir: self.pending.unwrap(), names: sorted_names(names) }),
            ),
            ..self
        }
    }

    /// Why the directory that was to be listed is refused, where it could not be read at all or
    /// one of its entries could not.
    pub open spec fn unlisted(self, entry: bool) -> Refusal {
        let dir = under(self.root, self.pending.unwrap());
        if entry {
            Refusal::UnreadableEntry(dir)
        } else {
            Refusal::UnreadableDirectory(dir)
        }
    }

    /// Why what the walk came to is refused, if it is.
    pub open spec fn verdict(self) -> Option<Refusal> {
        if self.files.len() == 0 {
            Some(Refusal::NoFiles)
        } else {
            None
        }
    }

    /// The levels once the next name has been looked at.
    pub open spec fn advanced(self) -> Seq<Level> {
        let top = self.levels.last();
        self.levels.drop_last().push(Level { dir: top.dir, names: top.names.skip(1) })
    }

    /// What follows from what was found at the requested path.
    pub open spec fn answer(self, found: EntryKind) -> Result<TreeState, Refusal> {
        match found {
            EntryKind::Missing => Err(Refusal::UnreadablePath(self.local())),
            EntryKind::Symlink => Err(Refusal::Symlink(self.local())),
            EntryKind::Other => Err(Refusal::Unsupported(self.local())),
            EntryKind::Directory => Ok(
                TreeState {
                    pending: Some(self.relative()),
                    levels: self.advanced(),
                    directories: self.directories.push(self.relative()),
                    ..self
                },
            ),
            EntryKind::File(size) => Ok(
                TreeState {
                    levels: settled(self.advanced()),
                    files: self.files.push(
                        Pushed { local: self.local(), relative: self.relative() },
                    ),
                    total_bytes: self.total_bytes + size,
                    ..self
                },
            ),
        }
    }
}

/// What the walk needs to know next, as a value.
#[derive(Debug)]
pub enum TreeRequest {
    List(UnixPath),
    Look(UnixPath),
    Finished,
}

impl View for TreeRequest {
    type V = Want;

    open spec fn view(&self) -> Want {
        match self {
            TreeRequest::List(p) => Want::List(p@),
            TreeRequest::Look(p) => Want::Look(p@),
            TreeRequest::Finished => Want::Nothing,
        }
    }
}

/// What came of listing a directory.
#[derive(Debug)]
pub enum Listing {
    Names(Vec<FileName>),
    /// The directory could not be read.
    Unreadable,
    /// One of its entries could not be read.
    BrokenEntry,
}

struct OpenLevel {
    dir: UnixPath,
    names: Vec<FileName>,
    next: usize,
}

impl OpenLevel {
    spec fn level(self) -> Level {
        Level { dir: self.dir@, names: name_views(self.names@).skip(self.next as int) }
    }

    spec fn wf(self) -> bool {
        self.next <= self.names@.len()
    }
}

spec fn level_views(list: Seq<OpenLevel>) -> Seq<Level> {
    list.map_values(|l: OpenLevel| l.level())
}

/// A walk through everything under a directory.
pub struct TreeScan {
    root: UnixPath,
    pending: Option<UnixPath>,
    levels: Vec<OpenLevel>,
    directories: Vec<UnixPath>,
    files: Vec<PushFile>,
    total_bytes: u64,
}

impl View for TreeScan {
    type V = TreeState;

    closed spec fn view(&self) -> TreeState {
        TreeState {
            root: self.root@,
            pending: match self.pending {
                Some(p) => Some(p@),
                None => None,
            },
            levels: level_views(self.levels@),
            directories: path_views(self.directories@),
            files: file_views(self.files@),
            total_bytes: self.total_bytes as int,
        }
    }
}

/// The path of `rel` under `root`.
fn path_under(root: &UnixPath, rel: &UnixPath) -> (r: UnixPath)
    ensures
        r@ == under(root@, rel@),
{
    if rel.bytes.len() == 0 {
        root.clone()
    } else {
        root.join(rel)
    }
}

/// Drops the innermost levels that have nothing left to look at.
fn settle(levels: &mut Vec<OpenLevel>)
    requires
        forall|i: int| 0 <= i < old(levels)@.len() ==> (#[trigger] old(levels)@[i]).wf(),
    ensures
        forall|i: int| 0 <= i < final(levels)@.len() ==> (#[trigger] final(levels)@[i]).wf(),
        level_views(final(levels)@) == settled(level_views(old(levels)@)),
        final(levels)@.len() > 0 ==> level_views(final(levels)@).last().names.len() > 0,
{
    let mut more: bool = true;
    while more
        invariant
            forall|i: int| 0 <= i < levels@.len() ==> (#[trigger] levels@[i]).wf(),
            settled(level_views(levels@)) == settled(level_views(old(levels)@)),
            !more ==> (levels@.len() > 0 ==> level_views(levels@).last().names.len() > 0),
        decreases levels@.len() + if more {
            1int
        } else {
            0int
        },
    {
        let n: usize = levels.len();
        if n == 0 {
            more = false;
        } else {
            let ghost all = level_views(levels@);
            assert(levels@[n - 1].wf());
            assert(all.last() == levels@[n - 1].level());
            if levels[n - 1].next == levels[n - 1].names.len() {
                let _ = levels.pop();
                assert(level_views(levels@) =~= all.drop_last());
            } else {
                more = false;
            }
        }
    }
}

impl TreeScan {
    /// Whether the walk can go on.
    pub closed spec fn wf(&self) -> bool {
        &&& self@.ready()
        &&& forall|i: int| 0 <= i < self.levels@.len() ==> (#[trigger] self.levels@[i]).wf()
    }

    /// Starts a walk through everything under `root`.
    pub fn start(root: UnixPath) -> (r: TreeScan)
        ensures
            r.wf(),
            r@ == TreeState::start(root@),
    {
        let top: UnixPath = UnixPath { bytes: Vec::new() };
        let r: TreeScan = TreeScan {
            root,
            pending: Some(top),
            levels: Vec::new(),
            directories: Vec::new(),
            files: Vec::new(),
            total_bytes: 0,
        };
        proof {
            assert(top@ =~= Seq::empty());
            assert(r@.levels =~= Seq::empty());
            assert(r@.directories =~= Seq::empty());
            assert(r@.files =~= Seq::empty());
        }
        r
    }

    /// The path from the root of what is to be looked at next.
    fn next_relative(&self) -> (r: UnixPath)
        requires
            self.wf(),
            self@.request() is Look,
        ensures
            r@ == self@.relative(),
    {
        let n: usize = self.levels.len();
        assert(self.levels@[n - 1].wf());
        assert(self@.levels.last() == self.levels@[n - 1].level());
        let top: &OpenLevel = &self.levels[n - 1];
        let name: UnixPath = UnixPath {
            bytes: vstd::slice::slice_to_vec(top.names[top.next].bytes.as_slice()),
        };
        assert(name@ == top.level().names[0]);
        top.dir.join(&name)
    }

    /// What the walk needs to know next.
    pub fn request(&self) -> (r: TreeRequest)
        requires
            self.wf(),
        ensures
            r@ == self@.request(),
    {
        match &self.pending {
            Some(dir) => TreeRequest::List(path_under(&self.root, dir)),
            None => {
                if self.levels.len() == 0 {
                    TreeRequest::Finished
                } else {
                    let rel: UnixPath = self.next_relative();
                    TreeRequest::Look(path_under(&self.root, &rel))
                }
            },
        }
    }

    /// The bytes of the files found so far.
    pub fn total_bytes(&self) -> (r: u64)
        ensures
            r == self@.total_bytes,
    {
        self.total_bytes
    }

    /// Takes in what came of listing the requested directory.
    pub fn list(&mut self, listing: Listing) -> (r: Result<(), InventoryError>)
        requires
            old(self).wf(),
            old(self)@.request() is List,
        ensures
            final(self).wf(),
            listing is Unreadable ==> (r matches Err(e) && e@ == old(self)@.unlisted(false)),
            listing is BrokenEntry ==> (r matches Err(e) && e@ == old(self)@.unlisted(true)),
            match listing {
                Listing::Names(names) => r is Ok && final(self)@ == old(self)@.listed(
                    name_views(names@),
                ),
                Listing::Unreadable => r matches Err(e) && e@ == Refusal::UnreadableDirectory(
                    old(self)@.request()->List_0,
                ) && final(self)@ == old(self)@,
                Listing::BrokenEntry => r matches Err(e) && e@ == Refusal::UnreadableEntry(
                    old(self)@.request()->List_0,
                ) && final(self)@ == old(self)@,
            },
    {
        let dir: UnixPath = match &self.pending {
            Some(dir) => dir.clone(),
            None => UnixPath { bytes: Vec::new() },
        };
        match listing {
            Listing::Unreadable => Err(
                InventoryError::UnreadableDirectory(path_under(&self.root, &dir)),
            ),
            Listing::BrokenEntry => Err(
                InventoryError::UnreadableEntry(path_under(&self.root, &dir)),
            ),
            Listing::Names(names) => {
                let ghost before = self@;
                let ghost levels0 = self.levels@;
                let sorted: Vec<FileName> = sort_names(names);
                let level: OpenLevel = OpenLevel { dir, names: sorted, next: 0 };
                self.pending = None;
                self.levels.push(level);
                proof {
                    assert(level.level().names =~= sorted_names(name_views(names@)));
                    assert(level_views(self.levels@) =~= level_views(levels0).push(level.level()));
                }
                settle(&mut self.levels);
                assert(self@ == before.listed(name_views(names@)));
                Ok(())
            },
        }
    }

    /// Takes in what was found at the requested path. The sizes of all files together must be
    /// countable.
    pub fn answer(&mut self, found: EntryKind) -> (r: Result<(), InventoryError>)
        requires
            old(self).wf(),
            old(self)@.request() is Look,
            found matches EntryKind::File(size) ==> old(self)@.total_bytes + size <= u64::MAX,
        ensures
            final(self).wf(),
            match old(self)@.answer(found) {
                Ok(next) => r is Ok && final(self)@ == next,
                Err(refusal) => r matches Err(e) && e@ == refusal && final(self)@ == old(self)@,
            },
    {
        let ghost before = self@;
        let rel: UnixPath = self.next_relative();
        let local: UnixPath = path_under(&self.root, &rel);
        match found {
            EntryKind::Missing => Err(InventoryError::UnreadablePath(local)),
            EntryKind::Symlink => Err(InventoryError::Symlink(local)),
            EntryKind::Other => Err(InventoryError::Unsupported(local)),
            EntryKind::Directory => {
                self.advance();
                let ghost dirs0 = self.directories@;
                self.directories.push(rel.clone());
                self.pending = Some(rel);
                proof {
                    assert(path_views(self.directories@) =~= path_views(dirs0).push(rel@));
                }
                Ok(())
            },
            EntryKind::File(size) => {
                self.advance();
                let ghost files0 = self.files@;
                settle(&mut self.levels);
                self.total_bytes = self.total_bytes + size;
                self.files.push(PushFile { local_path: local, relative_path: rel });
                proof {
                    assert(file_views(self.files@) =~= file_views(files0).push(
                        Pushed { local: local@, relative: rel@ },
                    ));
                }
                Ok(())
            },
        }
    }

    /// Steps over the name that has been looked at.
    fn advance(&mut self)
        requires
            old(self).wf(),
            old(self)@.request() is Look,
        ensures
            forall|i: int|
                0 <= i < final(self).levels@.len() ==> (#[trigger] final(self).levels@[i]).wf(),
            level_views(final(self).levels@) == old(self)@.advanced(),
            final(self).root == old(self).root,
            final(self).pending == old(self).pending,
            final(self).directories == old(self).directories,
            final(self).files == old(self).files,
            final(self).total_bytes == old(self).total_bytes,
    {
        let ghost levels0 = self.levels@;
        let ghost n = self.levels@.len() as int;
        assert(levels0[n - 1].wf());
        assert(self@.levels.last() == levels0[n - 1].level());
        if let Some(top) = self.levels.pop() {
            assert(top.next < top.names.len());
            let stepped: OpenLevel = OpenLevel {
                dir: top.dir,
                names: top.names,
                next: top.next + 1,
            };
            self.levels.push(stepped);
            proof {
                assert(stepped.level().names =~= levels0[n - 1].level().names.skip(1));
                assert(level_views(self.levels@) =~= old(self)@.advanced());
            }
        }
    }

    /// What the walk came to. Where it found no file there is nothing to push.
    pub fn finish(self) -> (r: Result<Inventory, InventoryError>)
        requires
            self.wf(),
            self@.request() is Nothing,
        ensures
            match self@.verdict() {
                Some(refusal) => r matches Err(e) && e@ == refusal,
                None => r is Ok,
            },
            self@.files.len() == 0 ==> (r matches Err(e) && e@ == Refusal::NoFiles),
            self@.files.len() > 0 ==> (r matches Ok(inventory) && {
                &&& sorted_as(inventory@.directories, self@.directories, depth_order())
                &&& inventory@.files == self@.files
                &&& inventory@.total_bytes == self@.total_bytes
                &&& inventory.total_bytes == self@.total_bytes
                &&& inventory.files@.len() == self@.files.len()
                &&& forall|i: int|
                    0 <= i < inventory.files@.len() ==> (
                    #[trigger] inventory.files@[i]).local_path@ == self@.files[i].local
                        && inventory.files@[i].relative_path@ == self@.files[i].relative
            }),
    {
        if self.files.len() == 0 {
            return Err(InventoryError::NoFiles);
        }
        let directories: Vec<UnixPath> = sort_paths(self.directories);
        Ok(Inventory { directories, files: self.files, total_bytes: self.total_bytes })
    }
}

/// A file or a directory that is looked at is taken in; what cannot be looked at, a link and anything
/// else are refused, and the path that was asked for is named.
pub proof fn lemma_look_answered(st: TreeState, found: EntryKind)
    requires
        st.request() is Look,
    ensures
        ({
            let p = st.request()->Look_0;
            match found {
                EntryKind::Missing => st.answer(found) == Err::<TreeState, Refusal>(
                    Refusal::UnreadablePath(p),
                ),
                EntryKind::Symlink => st.answer(found) == Err::<TreeState, Refusal>(
                    Refusal::Symlink(p),
                ),
                EntryKind::Other => st.answer(found) == Err::<TreeState, Refusal>(
                    Refusal::Unsupported(p),
                ),
                EntryKind::Directory => st.answer(found) matches Ok(next) && {
                    &&& next.request() == Want::List(p)
                    &&& next.files == st.files
                    &&& next.total_bytes == st.total_bytes
                    &&& next.directories.len() == st.directories.len() + 1
                    &&& next.directories.drop_last() == st.directories
                    &&& under(st.root, next.directories.last()) == p
                },
                EntryKind::File(size) => st.answer(found) matches Ok(next) && {
                    &&& next.directories == st.directories
                    &&& next.total_bytes == st.total_bytes + size
                    &&& next.files.len() == st.files.len() + 1
                    &&& next.files.drop_last() == st.files
                    &&& next.files.last().local == p
                    &&& under(st.root, next.files.last().relative) == p
                },
            }
        }),
{
    if let Ok(next) = st.answer(found) {
        if found is Directory {
            assert(next.directories.drop_last() =~= st.directories);
        } else {
            assert(next.files.drop_last() =~= st.files);
        }
    }
}

/// A directory that could not be listed is refused, and the path that was asked for is named.
pub proof fn lemma_listing_refused(st: TreeState)
    requires
        st.request() is List,
    ensures
        st.unlisted(false) == Refusal::UnreadableDirectory(st.request()->List_0),
        st.unlisted(true) == Refusal::UnreadableEntry(st.request()->List_0),
{
}

/// A walk is refused at its end exactly if it came to no file.
pub proof fn lemma_verdict(st: TreeState)
    ensures
        st.verdict() is Some <==> st.files.len() == 0,
        st.verdict() matches Some(refusal) ==> refusal == Refusal::NoFiles,
{
}

/// A walk starts with the listing of the root and nothing found.
pub proof fn lemma_tree_starts(root: Seq<u8>)
    ensures
        ({
            let st = TreeState::start(root);
            &&& st.root == root
            &&& st.request() == Want::List(root)
            &&& st.files.len() == 0 && st.directories.len() == 0 && st.total_bytes == 0
        }),
{
}

} // verus!
