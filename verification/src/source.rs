//! Where an inventory begins.

use vstd::prelude::*;

use crate::inventory::{InventoryError, Refusal};
use crate::manifest::{ManifestScan, ManifestState};
use crate::path::UnixPath;
use crate::text::views;
use crate::tree::{TreeScan, TreeState, Want};

verus! {

/// What became of the path that is to be pushed.
#[derive(Debug)]
pub enum RootStatus {
    /// It could not be resolved.
    Missing,
    /// It is this path, which is no directory.
    NotDirectory(UnixPath),
    /// It is this directory.
    Directory(UnixPath),
}

/// The way in which the files to push are found.
pub enum Scan {
    /// They are named one by one.
    Manifest(ManifestScan),
    /// They are all that is in the directory.
    Tree(TreeScan),
}

/// Why `source` cannot be pushed, as far as the root and the manifest show.
pub open spec fn refused(
    source: Seq<char>,
    root: RootStatus,
    selected: Option<Seq<Seq<char>>>,
) -> Option<Refusal> {
    match root {
        RootStatus::Missing => Some(Refusal::SourceNotFound(source)),
        RootStatus::NotDirectory(p) => Some(Refusal::SourceNotDirectory(p@)),
        RootStatus::Directory(_) => if selected == Some(Seq::<Seq<char>>::empty()) {
            Some(Refusal::EmptyManifest)
        } else {
            None
        },
    }
}

/// Starts the inventory of `source`.
pub fn inventory_source(
    source: &str,
    root: RootStatus,
    selected_files: Option<Vec<String>>,
) -> (r: Result<Scan, InventoryError>)
    ensures
        root is Directory ==> (r is Err <==> (selected_files matches Some(list) && list@.len() == 0)),
        root is Directory && selected_files is None ==> (r matches Ok(Scan::Tree(_))),
        root is Directory && r is Ok && selected_files is Some ==> (r matches Ok(
            Scan::Manifest(_),
        )),
        root !is Directory ==> r is Err,
        r matches Ok(Scan::Manifest(scan)) ==> {
            let list = selected_files.unwrap();
            &&& scan@.root == root->Directory_0@
            &&& scan@.selected.len() == list@.len()
            &&& forall|i: int|
                0 <= i < list@.len() ==> scan@.selected[i] == (#[trigger] list@[i])@
            &&& scan@.done == 0
            &&& scan@.files.len() == 0 && scan@.directories.len() == 0 && scan@.total_bytes == 0
        },
        r matches Ok(Scan::Tree(scan)) ==> {
            &&& scan@.request() == Want::List(root->Directory_0@)
            &&& scan@.root == root->Directory_0@
            &&& scan@.files.len() == 0 && scan@.directories.len() == 0 && scan@.total_bytes == 0
        },
        ({
            let selected = match selected_files {
                Some(list) => Some(views(list@)),
                None => None,
            };
            match refused(source@, root, selected) {
                Some(refusal) => r matches Err(e) && e@ == refusal,
                None => match selected {
                    Some(entries) => {
                        &&& r matches Ok(Scan::Manifest(scan))
                        &&& scan.wf()
                        &&& scan@ == ManifestState::start(root->Directory_0@, entries)
                    },
                    None => {
                        &&& r matches Ok(Scan::Tree(scan))
                        &&& scan.wf()
                        &&& scan@ == TreeState::start(root->Directory_0@)
                    },
                },
            }
        }),
{
    match root {
        RootStatus::Missing => Err(InventoryError::SourceNotFound(source.to_owned())),
        RootStatus::NotDirectory(path) => Err(InventoryError::SourceNotDirectory(path)),
        RootStatus::Directory(path) => match selected_files {
            Some(list) => {
                if list.len() == 0 {
                    assert(views(list@) =~= Seq::empty());
                    return Err(InventoryError::EmptyManifest);
                }
                assert(views(list@).len() > 0);
                Ok(Scan::Manifest(ManifestScan::start(path, list)))
            },
            None => Ok(Scan::Tree(TreeScan::start(path))),
        },
    }
}

/// A directory is refused exactly if a manifest is given that has no entries; with one or more,
/// however many, it is not. What is no directory is refused, and named.
pub proof fn lemma_refused_exactly(
    source: Seq<char>,
    root: RootStatus,
    selected: Option<Seq<Seq<char>>>,
)
    ensures
        root is Directory ==> (refused(source, root, selected) is Some <==> selected is Some
            && selected.unwrap().len() == 0),
        root is Directory && refused(source, root, selected) is Some ==> refused(
            source,
            root,
            selected,
        ) == Some(Refusal::EmptyManifest),
        root matches RootStatus::NotDirectory(p) ==> refused(source, root, selected) == Some(
            Refusal::SourceNotDirectory(p@),
        ),
        root is Missing ==> refused(source, root, selected) == Some(
            Refusal::SourceNotFound(source),
        ),
{
    if selected is Some && selected.unwrap().len() == 0 {
        assert(selected.unwrap() =~= Seq::<Seq<char>>::empty());
    }
}

} // verus!
