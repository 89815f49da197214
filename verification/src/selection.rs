//! What a walk gathers, place by place, and how the inventory of a whole directory and that of a
//! manifest of its files are related.

use vstd::prelude::*;
use vstd::utf8::encode_utf8;

use crate::inventory::{
    distinct_places, holds_directory, is_needed, lemma_filter_at_most_one, lemma_laid_out,
    EntryKind, Load, Pushed, Refusal,
};
use crate::manifest::{
    acceptable, after, leads_to, lemma_manifest_outcome, lemma_manifest_spelling, total_size,
    ManifestState,
};
use crate::order::{
    bytes_lt, in_order, lemma_sorted_same_items, lemma_sorted_unique, ranked_with, sorted_as,
};
use crate::path::{
    depth_order, join, lead, lemma_child_parts, lemma_depth_order, lemma_lead_parts,
    lemma_no_parts, lemma_same_place, parts, parts_lt, Part,
};
use crate::tree::under;
use crate::walk::{
    gather, holds_way, kind, lemma_first_name, lemma_gathered_layout, lemma_gathered_names,
    lemma_named_rest, lemma_orderly_rest, lemma_ways_ordered, names_only, nothing, orderly,
    properly_named, relatives, Child, Found, Node,
};

verus! {

/// What is at the place with the components `q` below a directory with these entries.
pub open spec fn node_at(children: Seq<Child>, q: Seq<Part>) -> Option<Node>
    decreases children,
{
    if children.len() == 0 || q.len() == 0 {
        None
    } else if q[0] != Part::Normal(children[0].name) {
        node_at(children.skip(1), q)
    } else if q.len() == 1 {
        Some(children[0].node)
    } else {
        match children[0].node {
            Node::Directory(inner) => node_at(inner, q.skip(1)),
            _ => None,
        }
    }
}

/// What a look at that place finds.
pub open spec fn kind_at(children: Seq<Child>, q: Seq<Part>) -> EntryKind {
    match node_at(children, q) {
        Some(node) => kind(node),
        None => EntryKind::Missing,
    }
}

/// The paths that the entries of a manifest name.
pub open spec fn named_paths(selected: Seq<Seq<char>>) -> Seq<Seq<u8>> {
    selected.map_values(|s: Seq<char>| encode_utf8(s))
}

/// What a look at each of these paths finds.
pub open spec fn kinds_at(children: Seq<Child>, paths: Seq<Seq<u8>>) -> Seq<EntryKind> {
    paths.map_values(|p: Seq<u8>| kind_at(children, parts(p)))
}

spec fn size(found: EntryKind) -> int {
    match found {
        EntryKind::File(size) => size as int,
        _ => 0,
    }
}

/// The size of what is at a path, less its first `n` components.
spec fn size_from(children: Seq<Child>, n: int) -> spec_fn(Seq<u8>) -> int {
    |p: Seq<u8>| size(kind_at(children, parts(p).skip(n)))
}

spec fn sum(paths: Seq<Seq<u8>>, w: spec_fn(Seq<u8>) -> int) -> int
    decreases paths.len(),
{
    if paths.len() == 0 {
        0
    } else {
        sum(paths.drop_last(), w) + w(paths.last())
    }
}

proof fn lemma_sum_append(a: Seq<Seq<u8>>, b: Seq<Seq<u8>>, w: spec_fn(Seq<u8>) -> int)
    ensures
        sum(a + b, w) == sum(a, w) + sum(b, w),
    decreases b.len(),
{
    if b.len() == 0 {
        assert(a + b =~= a);
    } else {
        assert((a + b).drop_last() =~= a + b.drop_last());
        lemma_sum_append(a, b.drop_last(), w);
    }
}

proof fn lemma_sum_same(
    s: Seq<Seq<u8>>,
    v: spec_fn(Seq<u8>) -> int,
    w: spec_fn(Seq<u8>) -> int,
)
    requires
        forall|i: int| 0 <= i < s.len() ==> v(#[trigger] s[i]) == w(s[i]),
    ensures
        sum(s, v) == sum(s, w),
    decreases s.len(),
{
    if s.len() > 0 {
        let t = s.drop_last();
        assert forall|i: int| 0 <= i < t.len() implies v(#[trigger] t[i]) == w(t[i]) by {
            assert(t[i] == s[i]);
        }
        lemma_sum_same(t, v, w);
        assert(v(s[s.len() - 1]) == w(s[s.len() - 1]));
    }
}

/// A sum does not depend on the order.
proof fn lemma_sum_of_any_order(
    a: Seq<Seq<u8>>,
    b: Seq<Seq<u8>>,
    w: spec_fn(Seq<u8>) -> int,
)
    requires
        a.to_multiset() == b.to_multiset(),
    ensures
        sum(a, w) == sum(b, w),
    decreases a.len(),
{
    broadcast use vstd::seq_lib::group_to_multiset_ensures;

    assert(a.to_multiset().len() == a.len() && b.to_multiset().len() == b.len());
    if a.len() > 0 {
        let x = a.last();
        let last = a.len() - 1;
        assert(a.contains(a[last]));
        assert(a.to_multiset().count(x) > 0);
        assert(b.contains(x));
        let j = choose|j: int| 0 <= j < b.len() && b[j] == x;
        let front = b.take(j);
        let back = b.skip(j + 1);
        assert(b.remove(j) =~= front + back);
        assert(a.remove(last) =~= a.drop_last());
        assert(a.remove(last).to_multiset() == a.to_multiset().remove(x));
        assert(b.remove(j).to_multiset() == b.to_multiset().remove(x));
        lemma_sum_of_any_order(a.drop_last(), b.remove(j), w);
        lemma_sum_append(front, back, w);
        assert(b =~= front.push(x) + back);
        lemma_sum_append(front.push(x), back, w);
        assert(front.push(x).drop_last() =~= front);
    }
}

/// What is there has the name of one of the entries.
proof fn lemma_node_named(children: Seq<Child>, q: Seq<Part>) -> (i: int)
    requires
        node_at(children, q) is Some,
    ensures
        0 <= i < children.len(),
        q.len() > 0,
        q[0] == Part::Normal(children[i].name),
    decreases children,
{
    if q[0] == Part::Normal(children[0].name) {
        0
    } else {
        let i = lemma_node_named(children.skip(1), q);
        i + 1
    }
}

/// What is at a place, told by the first entry and the rest.
proof fn lemma_node_split(children: Seq<Child>, q: Seq<Part>)
    requires
        orderly(children),
        children.len() > 0,
        q.len() > 0,
    ensures
        q[0] == Part::Normal(children[0].name) ==> node_at(children.skip(1), q) is None,
        q[0] != Part::Normal(children[0].name) ==> node_at(children, q) == node_at(
            children.skip(1),
            q,
        ),
{
    if q[0] == Part::Normal(children[0].name) && node_at(children.skip(1), q) is Some {
        let i = lemma_node_named(children.skip(1), q);
        assert(children.skip(1)[i] == children[i + 1]);
        lemma_first_name(children, i + 1);
    }
}

/// What is at the place with the components `p`, if that is below `dir`.
spec fn node_below(dir: Seq<u8>, children: Seq<Child>, p: Seq<Part>) -> Option<Node> {
    if parts(dir).is_prefix_of(p) {
        node_at(children, p.skip(parts(dir).len() as int))
    } else {
        None
    }
}

/// Whether one of the files is at the place with the components `p`.
pub open spec fn file_found(f: Found, p: Seq<Part>) -> bool {
    exists|i: int| 0 <= i < f.files.len() && parts((#[trigger] f.files[i]).relative) == p
}

/// Whether one of the directories is at the place with the components `p`.
pub open spec fn directory_found(f: Found, p: Seq<Part>) -> bool {
    exists|i: int| 0 <= i < f.directories.len() && parts(#[trigger] f.directories[i]) == p
}

proof fn lemma_file_pushed(f: Found, file: Pushed, total: int, p: Seq<Part>)
    ensures
        file_found(Found { files: f.files.push(file), total_bytes: total, ..f }, p)
            <==> file_found(f, p) || p == parts(file.relative),
{
    let g = Found { files: f.files.push(file), total_bytes: total, ..f };
    let n = f.files.len() as int;
    if file_found(f, p) {
        let i = choose|i: int| 0 <= i < n && parts((#[trigger] f.files[i]).relative) == p;
        assert(g.files[i] == f.files[i]);
    }
    if p == parts(file.relative) {
        assert(g.files[n] == file);
    }
    if file_found(g, p) {
        let i = choose|i: int| 0 <= i <= n && parts((#[trigger] g.files[i]).relative) == p;
        if i < n {
            assert(g.files[i] == f.files[i]);
        }
    }
}

proof fn lemma_directory_pushed(f: Found, dir: Seq<u8>, p: Seq<Part>)
    ensures
        directory_found(Found { directories: f.directories.push(dir), ..f }, p)
            <==> directory_found(f, p) || p == parts(dir),
{
    let g = Found { directories: f.directories.push(dir), ..f };
    let n = f.directories.len() as int;
    if directory_found(f, p) {
        let i = choose|i: int| 0 <= i < n && parts(#[trigger] f.directories[i]) == p;
        assert(g.directories[i] == f.directories[i]);
    }
    if p == parts(dir) {
        assert(g.directories[n] == dir);
    }
    if directory_found(g, p) {
        let i = choose|i: int| 0 <= i <= n && parts(#[trigger] g.directories[i]) == p;
        if i < n {
            assert(g.directories[i] == f.directories[i]);
        }
    }
}

/// What is below the first entry and what is below the rest is what is below a directory.
proof fn lemma_below_split(dir: Seq<u8>, children: Seq<Child>, p: Seq<Part>)
    requires
        orderly(children),
        children.len() > 0,
    ensures
        ({
            let c = children[0];
            let place = parts(dir).push(Part::Normal(c.name));
            if place.is_prefix_of(p) {
                &&& node_below(dir, children.skip(1), p) is None
                &&& node_below(dir, children, p) == if p == place {
                    Some(c.node)
                } else {
                    match c.node {
                        Node::Directory(inner) => node_at(inner, p.skip(place.len() as int)),
                        _ => None,
                    }
                }
            } else {
                node_below(dir, children, p) == node_below(dir, children.skip(1), p)
            }
        }),
{
    let c = children[0];
    let n = parts(dir).len() as int;
    let place = parts(dir).push(Part::Normal(c.name));
    let q = p.skip(n);
    if place.is_prefix_of(p) {
        assert(place =~= p.subrange(0, n + 1));
        assert(place[n] == p[n]);
        assert forall|i: int| 0 <= i < n implies parts(dir)[i] == p[i] by {
            assert(place[i] == p[i]);
        }
        assert(parts(dir) =~= p.subrange(0, n));
        assert(q[0] == Part::Normal(c.name));
        lemma_node_split(children, q);
        assert(q.skip(1) =~= p.skip(n + 1));
        if q.len() == 1 {
            assert(p =~= place);
        }
    } else if parts(dir).is_prefix_of(p) {
        if q.len() > 0 {
            assert(parts(dir) =~= p.subrange(0, n));
            if q[0] == Part::Normal(c.name) {
                assert(place =~= p.subrange(0, n + 1));
            }
            lemma_node_split(children, q);
        }
    }
}

proof fn lemma_gather_places(root: Seq<u8>, dir: Seq<u8>, children: Seq<Child>, acc: Found)
    requires
        orderly(children),
        properly_named(children),
    ensures
        gather(root, dir, children, acc) matches Ok(f) ==> {
            &&& forall|p: Seq<Part>| #[trigger]
                file_found(f, p) <==> file_found(acc, p) || (node_below(dir, children, p) matches Some(
                    Node::File(_),
                ))
            &&& forall|p: Seq<Part>| #[trigger]
                directory_found(f, p) <==> directory_found(acc, p) || (node_below(
                    dir,
                    children,
                    p,
                ) matches Some(Node::Directory(_)))
        },
    decreases children,
{
    if children.len() > 0 && gather(root, dir, children, acc) is Ok {
        let c = children[0];
        let rest = children.skip(1);
        let rel = join(dir, c.name);
        let place = parts(dir).push(Part::Normal(c.name));
        let f = gather(root, dir, children, acc)->Ok_0;
        lemma_named_rest(children);
        lemma_orderly_rest(children);
        lemma_child_parts(dir, c.name);
        assert(place =~= place.subrange(0, place.len() as int));
        let g = match c.node {
            Node::File(bytes) => {
                let file = Pushed { local: under(root, rel), relative: rel };
                Found {
                    files: acc.files.push(file),
                    total_bytes: acc.total_bytes + bytes,
                    ..acc
                }
            },
            Node::Directory(inner) => {
                let entered = Found { directories: acc.directories.push(rel), ..acc };
                lemma_gather_places(root, rel, inner, entered);
                gather(root, rel, inner, entered)->Ok_0
            },
            _ => acc,
        };
        lemma_gather_places(root, dir, rest, g);
        assert forall|p: Seq<Part>| #[trigger]
            file_found(f, p) <==> file_found(acc, p) || (node_below(dir, children, p) matches Some(
                Node::File(_),
            )) by {
            lemma_below_split(dir, children, p);
            assert(file_found(f, p) <==> file_found(g, p) || (node_below(
                dir,
                rest,
                p,
            ) matches Some(Node::File(_))));
            match c.node {
                Node::File(bytes) => {
                    let file = Pushed { local: under(root, rel), relative: rel };
                    lemma_file_pushed(acc, file, acc.total_bytes + bytes, p);
                },
                Node::Directory(inner) => {
                    let entered = Found { directories: acc.directories.push(rel), ..acc };
                    assert(file_found(entered, p) == file_found(acc, p));
                    assert(file_found(g, p) <==> file_found(entered, p) || (node_below(
                        rel,
                        inner,
                        p,
                    ) matches Some(Node::File(_))));
                    if p == place {
                        assert(p.skip(place.len() as int) =~= Seq::empty());
                    }
                },
                _ => {},
            }
        }
        assert forall|p: Seq<Part>| #[trigger]
            directory_found(f, p) <==> directory_found(acc, p) || (node_below(
                dir,
                children,
                p,
            ) matches Some(Node::Directory(_))) by {
            lemma_below_split(dir, children, p);
            assert(directory_found(f, p) <==> directory_found(g, p) || (node_below(
                dir,
                rest,
                p,
            ) matches Some(Node::Directory(_))));
            match c.node {
                Node::File(_) => {
                    assert(directory_found(g, p) == directory_found(acc, p));
                },
                Node::Directory(inner) => {
                    let entered = Found { directories: acc.directories.push(rel), ..acc };
                    lemma_directory_pushed(acc, rel, p);
                    assert(directory_found(g, p) <==> directory_found(entered, p) || (node_below(
                        rel,
                        inner,
                        p,
                    ) matches Some(Node::Directory(_))));
                    if p == place {
                        assert(p.skip(place.len() as int) =~= Seq::empty());
                    }
                },
                _ => {},
            }
        }
    }
}

/// A walk gathers the file at every place where there is one, the directory at every place where
/// there is one, and nothing else.
pub proof fn lemma_gathered_exactly(root: Seq<u8>, children: Seq<Child>)
    requires
        orderly(children),
        properly_named(children),
    ensures
        gather(root, Seq::empty(), children, nothing()) matches Ok(f) ==> {
            &&& forall|p: Seq<Part>| #[trigger]
                file_found(f, p) <==> (node_at(children, p) matches Some(Node::File(_)))
            &&& forall|p: Seq<Part>| #[trigger]
                directory_found(f, p) <==> (node_at(children, p) matches Some(Node::Directory(_)))
        },
{
    let top = Seq::<u8>::empty();
    lemma_no_parts();
    lemma_gather_places(root, top, children, nothing());
    assert forall|p: Seq<Part>| #[trigger] node_below(top, children, p) == node_at(
        children,
        p,
    ) by {
        assert(parts(top) =~= p.subrange(0, 0));
        assert(p.skip(0) =~= p);
    }
}

/// Whether there are only files and directories.
pub open spec fn only_files(children: Seq<Child>) -> bool
    decreases children,
{
    forall|i: int|
        0 <= i < children.len() ==> match (#[trigger] children[i]).node {
            Node::File(_) => true,
            Node::Directory(inner) => only_files(inner),
            _ => false,
        }
}

/// A walk succeeds exactly if there are only files and directories.
pub proof fn lemma_gather_succeeds(root: Seq<u8>, dir: Seq<u8>, children: Seq<Child>, acc: Found)
    ensures
        gather(root, dir, children, acc) is Ok <==> only_files(children),
    decreases children,
{
    if children.len() > 0 {
        let c = children[0];
        let rest = children.skip(1);
        let rel = join(dir, c.name);
        assert(only_files(children) <==> only_files(rest) && match c.node {
            Node::File(_) => true,
            Node::Directory(inner) => only_files(inner),
            _ => false,
        }) by {
            assert(children[0] == c);
            assert forall|i: int| 0 <= i < rest.len() implies #[trigger] rest[i]
                == children[i + 1] by {}
            assert forall|i: int| 0 < i < children.len() implies #[trigger] children[i] == rest[i
                - 1] by {}
        }
        match c.node {
            Node::File(bytes) => {
                let next = Found {
                    files: acc.files.push(Pushed { local: under(root, rel), relative: rel }),
                    total_bytes: acc.total_bytes + bytes,
                    ..acc
                };
                lemma_gather_succeeds(root, dir, rest, next);
            },
            Node::Directory(inner) => {
                let entered = Found { directories: acc.directories.push(rel), ..acc };
                lemma_gather_succeeds(root, rel, inner, entered);
                if let Ok(next) = gather(root, rel, inner, entered) {
                    lemma_gather_succeeds(root, dir, rest, next);
                }
            },
            _ => {},
        }
    }
}

/// Whether a file is at each of the paths `new`, all of them below `dir`.
spec fn files_below(dir: Seq<u8>, children: Seq<Child>, new: Seq<Seq<u8>>) -> bool {
    forall|i: int|
        0 <= i < new.len() ==> {
            let q = parts(#[trigger] new[i]);
            &&& parts(dir).is_prefix_of(q)
            &&& parts(dir).len() < q.len()
            &&& kind_at(children, q.skip(parts(dir).len() as int)) is File
        }
}

/// What a walk gathers in a directory are the files that are there, with their sizes.
proof fn lemma_gather_sizes(root: Seq<u8>, dir: Seq<u8>, children: Seq<Child>, acc: Found)
    requires
        orderly(children),
        properly_named(children),
    ensures
        gather(root, dir, children, acc) matches Ok(f) ==> {
            let new = relatives(f.files).skip(acc.files.len() as int);
            &&& acc.files.is_prefix_of(f.files)
            &&& files_below(dir, children, new)
            &&& f.total_bytes == acc.total_bytes + sum(
                new,
                size_from(children, parts(dir).len() as int),
            )
        },
    decreases children,
{
    let n = parts(dir).len() as int;
    let w = size_from(children, n);
    if children.len() == 0 {
        assert(acc.files =~= acc.files.subrange(0, acc.files.len() as int));
        assert(relatives(acc.files).skip(acc.files.len() as int) =~= Seq::empty());
    } else if gather(root, dir, children, acc) is Ok {
        let c = children[0];
        let rest = children.skip(1);
        let rel = join(dir, c.name);
        let f = gather(root, dir, children, acc)->Ok_0;
        lemma_named_rest(children);
        lemma_orderly_rest(children);
        lemma_child_parts(dir, c.name);
        let g = match c.node {
            Node::File(bytes) => {
                let g = Found {
                    files: acc.files.push(Pushed { local: under(root, rel), relative: rel }),
                    total_bytes: acc.total_bytes + bytes,
                    ..acc
                };
                let first = relatives(g.files).skip(acc.files.len() as int);
                assert(acc.files =~= g.files.subrange(0, acc.files.len() as int));
                assert(first =~= seq![rel]);
                assert(first.drop_last() =~= Seq::empty());
                assert(parts(rel).skip(n) =~= seq![Part::Normal(c.name)]);
                assert(parts(dir) =~= parts(rel).subrange(0, n));
                assert(kind_at(children, parts(rel).skip(n)) == EntryKind::File(bytes));
                assert(sum(first.drop_last(), w) == 0);
                assert(sum(first, w) == w(rel));
                g
            },
            Node::Directory(inner) => {
                let entered = Found { directories: acc.directories.push(rel), ..acc };
                lemma_gather_sizes(root, rel, inner, entered);
                let g = gather(root, rel, inner, entered)->Ok_0;
                let first = relatives(g.files).skip(acc.files.len() as int);
                let v = size_from(inner, n + 1);
                assert forall|i: int| 0 <= i < first.len() implies ({
                    let q = parts(#[trigger] first[i]);
                    &&& parts(dir).is_prefix_of(q)
                    &&& n < q.len()
                    &&& kind_at(children, q.skip(n)) == kind_at(inner, q.skip(n + 1))
                }) by {
                    let q = parts(first[i]);
                    assert(parts(rel) =~= q.subrange(0, n + 1));
                    assert(parts(rel)[n] == q[n]);
                    assert forall|k: int| 0 <= k < n implies parts(dir)[k] == q[k] by {
                        assert(parts(rel)[k] == q[k]);
                    }
                    assert(parts(dir) =~= q.subrange(0, n));
                    assert(q.skip(n)[0] == Part::Normal(c.name));
                    assert(q.skip(n).skip(1) =~= q.skip(n + 1));
                }
                assert forall|i: int| 0 <= i < first.len() implies v(#[trigger] first[i]) == w(
                    first[i],
                ) by {}
                lemma_sum_same(first, v, w);
                assert(files_below(dir, children, first));
                g
            },
            _ => acc,
        };
        let first = relatives(g.files).skip(acc.files.len() as int);
        lemma_gather_sizes(root, dir, rest, g);
        let more = relatives(f.files).skip(g.files.len() as int);
        let new = relatives(f.files).skip(acc.files.len() as int);
        let u = size_from(rest, n);
        assert forall|i: int| 0 <= i < more.len() implies kind_at(
            children,
            parts(#[trigger] more[i]).skip(n),
        ) == kind_at(rest, parts(more[i]).skip(n)) by {
            lemma_node_split(children, parts(more[i]).skip(n));
        }
        assert forall|i: int| 0 <= i < more.len() implies u(#[trigger] more[i]) == w(more[i]) by {}
        lemma_sum_same(more, u, w);
        assert(acc.files =~= f.files.subrange(0, acc.files.len() as int));
        assert(new =~= first + more) by {
            assert forall|i: int| 0 <= i < first.len() implies new[i] == first[i] by {
                assert(f.files[acc.files.len() + i] == g.files[acc.files.len() + i]);
            }
        }
        lemma_sum_append(first, more, w);
        assert(files_below(dir, children, new)) by {
            assert forall|i: int| 0 <= i < new.len() implies ({
                let q = parts(#[trigger] new[i]);
                &&& parts(dir).is_prefix_of(q)
                &&& n < q.len()
                &&& kind_at(children, q.skip(n)) is File
            }) by {
                if i < first.len() {
                    assert(new[i] == first[i]);
                } else {
                    assert(new[i] == more[i - first.len()]);
                }
            }
        }
    }
}

/// A look at each of the files that a walk gathers finds a file, and their sizes come to what
/// the walk counts.
pub proof fn lemma_gathered_files(root: Seq<u8>, children: Seq<Child>)
    requires
        orderly(children),
        properly_named(children),
    ensures
        gather(root, Seq::empty(), children, nothing()) matches Ok(f) ==> {
            &&& forall|i: int|
                0 <= i < f.files.len() ==> kind_at(
                    children,
                    parts((#[trigger] f.files[i]).relative),
                ) is File
            &&& f.total_bytes == total_size(kinds_at(children, relatives(f.files)))
        },
{
    let top = Seq::<u8>::empty();
    lemma_no_parts();
    lemma_gather_sizes(root, top, children, nothing());
    if let Ok(f) = gather(root, top, children, nothing()) {
        let all = relatives(f.files);
        assert(all.skip(0) =~= all);
        assert forall|i: int| 0 <= i < f.files.len() implies kind_at(
            children,
            parts((#[trigger] f.files[i]).relative),
        ) is File by {
            let q = parts(all[i]);
            assert(q.skip(0) =~= q);
        }
        lemma_total_size(children, all);
    }
}

proof fn lemma_total_size(children: Seq<Child>, paths: Seq<Seq<u8>>)
    ensures
        total_size(kinds_at(children, paths)) == sum(paths, size_from(children, 0)),
    decreases paths.len(),
{
    let kinds = kinds_at(children, paths);
    if paths.len() > 0 {
        let q = parts(paths.last());
        lemma_total_size(children, paths.drop_last());
        assert(kinds.drop_last() =~= kinds_at(children, paths.drop_last()));
        assert(q.skip(0) =~= q);
    }
}

/// Leaving items out leaves the order as it is, and no place comes up twice.
proof fn lemma_filtered(s: Seq<Seq<u8>>, p: spec_fn(Seq<u8>) -> bool)
    requires
        in_order(s, depth_order()),
        distinct_places(s),
    ensures
        in_order(s.filter(p), depth_order()),
        distinct_places(s.filter(p)),
    decreases s.len(),
{
    let leq = depth_order();
    let r = s.filter(p);
    if s.len() == 0 {
        s.lemma_filter_len(p);
    } else {
        let t = s.drop_last();
        let x = s.last();
        let front = t.filter(p);
        assert(t.push(x) =~= s);
        assert forall|i: int, j: int| 0 <= i <= j < t.len() implies leq(
            #[trigger] t[i],
            #[trigger] t[j],
        ) by {
            assert(leq(s[i], s[j]));
        }
        assert forall|i: int, j: int| 0 <= i < j < t.len() implies parts(#[trigger] t[i]) != parts(
            #[trigger] t[j],
        ) by {
            assert(parts(s[i]) != parts(s[j]));
        }
        lemma_filtered(t, p);
        t.lemma_filter_push(x, p);
        if p(x) {
            assert forall|i: int| 0 <= i < front.len() implies leq(#[trigger] front[i], x) && parts(
                front[i],
            ) != parts(x) by {
                assert(front.contains(front[i]));
                t.lemma_filter_contains_rev(p, front[i]);
                let j = choose|j: int| 0 <= j < t.len() && t[j] == front[i];
                assert(leq(s[j], s[s.len() - 1]));
                assert(parts(s[j]) != parts(s[s.len() - 1]));
            }
            assert forall|i: int, j: int| 0 <= i <= j < r.len() implies leq(
                #[trigger] r[i],
                #[trigger] r[j],
            ) by {
                if j < front.len() {
                    assert(leq(front[i], front[j]));
                } else if i < front.len() {
                    assert(leq(front[i], x));
                } else {
                    assert(leq(s[s.len() - 1], s[s.len() - 1]));
                }
            }
            assert forall|i: int, j: int| 0 <= i < j < r.len() implies parts(#[trigger] r[i])
                != parts(#[trigger] r[j]) by {
                assert(r[i] == front[i]);
                if j < front.len() {
                    assert(r[j] == front[j]);
                }
            }
        }
    }
}

/// Whether no item comes up in one list that is not in the other.
spec fn same_items<T>(a: Seq<T>, b: Seq<T>) -> bool {
    forall|x: T| #[trigger] a.contains(x) <==> b.contains(x)
}

/// Lists of different places that hold the same items have the same item of each rank.
proof fn lemma_same_ranked(a: Seq<Seq<u8>>, b: Seq<Seq<u8>>, k: Seq<u8>)
    requires
        distinct_places(a),
        distinct_places(b),
        same_items(a, b),
    ensures
        ranked_with(a, k, depth_order()) == ranked_with(b, k, depth_order()),
{
    let leq = depth_order();
    let p = |x: Seq<u8>| leq(x, k) && leq(k, x);
    lemma_one_of_rank(a, k);
    lemma_one_of_rank(b, k);
    let x = a.filter(p);
    let y = b.filter(p);
    if x.len() == 1 {
        assert(x.contains(x[0]));
        a.lemma_filter_contains_rev(p, x[0]);
        a.lemma_filter_pred(p, 0);
        let i = choose|i: int| 0 <= i < b.len() && b[i] == x[0];
        b.lemma_filter_contains(p, i);
        assert(x =~= y);
    } else if y.len() == 1 {
        assert(y.contains(y[0]));
        b.lemma_filter_contains_rev(p, y[0]);
        b.lemma_filter_pred(p, 0);
        assert(a.contains(y[0]));
        let i = choose|i: int| 0 <= i < a.len() && a[i] == y[0];
        a.lemma_filter_contains(p, i);
    } else {
        assert(x =~= y);
    }
}

proof fn lemma_one_of_rank(s: Seq<Seq<u8>>, k: Seq<u8>)
    requires
        distinct_places(s),
    ensures
        ranked_with(s, k, depth_order()).len() <= 1,
{
    let leq = depth_order();
    let p = |x: Seq<u8>| leq(x, k) && leq(k, x);
    assert forall|i: int, j: int| 0 <= i < j < s.len() implies !(p(#[trigger] s[i]) && p(
        #[trigger] s[j],
    )) by {
        if p(s[i]) && p(s[j]) {
            lemma_same_place(s[i], k);
            lemma_same_place(s[j], k);
        }
    }
    lemma_filter_at_most_one(s, p);
}

/// Lists without repetition that hold the same items hold each equally often.
proof fn lemma_same_counts<T>(a: Seq<T>, b: Seq<T>)
    requires
        a.no_duplicates(),
        b.no_duplicates(),
        same_items(a, b),
    ensures
        a.to_multiset() == b.to_multiset(),
{
    broadcast use vstd::seq_lib::group_to_multiset_ensures;

    a.lemma_multiset_has_no_duplicates();
    b.lemma_multiset_has_no_duplicates();
    assert forall|x: T| a.to_multiset().count(x) == b.to_multiset().count(x) by {
        assert(a.contains(x) <==> a.to_multiset().count(x) > 0);
        assert(b.contains(x) <==> b.to_multiset().count(x) > 0);
        if a.contains(x) {
            assert(a.to_multiset().contains(x) && b.to_multiset().contains(x));
        }
    }
    assert(a.to_multiset() =~= b.to_multiset());
}

/// Lists that hold each item equally often hold the same items, and neither repeats one where the
/// other does not.
proof fn lemma_same_multiset<T>(a: Seq<T>, b: Seq<T>)
    requires
        a.to_multiset() == b.to_multiset(),
        b.no_duplicates(),
    ensures
        same_items(a, b),
        a.no_duplicates(),
{
    broadcast use vstd::seq_lib::group_to_multiset_ensures;

    assert forall|x: T| #[trigger] a.contains(x) <==> b.contains(x) by {
        assert(a.contains(x) <==> a.to_multiset().count(x) > 0);
        assert(b.contains(x) <==> b.to_multiset().count(x) > 0);
    }
    b.lemma_multiset_has_no_duplicates();
    a.lemma_multiset_has_no_duplicates_conv();
}

proof fn lemma_places_no_duplicates(s: Seq<Seq<u8>>)
    requires
        distinct_places(s),
    ensures
        s.no_duplicates(),
{
    assert forall|i: int, j: int| 0 <= i < s.len() && 0 <= j < s.len() && i != j implies s[i]
        != s[j] by {
        if i < j {
            assert(parts(s[i]) != parts(s[j]));
        } else {
            assert(parts(s[j]) != parts(s[i]));
        }
    }
}

/// Whether `selected` names the files that a walk found, each once and in any order.
pub open spec fn names_all(selected: Seq<Seq<char>>, files: Seq<Pushed>) -> bool {
    named_paths(selected).to_multiset() == relatives(files).to_multiset()
}

/// A manifest that names all the files that a walk gathers is taken in.
proof fn lemma_all_acceptable(
    root: Seq<u8>,
    children: Seq<Child>,
    selected: Seq<Seq<char>>,
    f: Found,
)
    requires
        orderly(children),
        properly_named(children),
        gather(root, Seq::empty(), children, nothing()) == Ok::<Found, Refusal>(f),
        names_all(selected, f.files),
    ensures
        same_items(named_paths(selected), relatives(f.files)),
        named_paths(selected).no_duplicates(),
        relatives(f.files).no_duplicates(),
        forall|i: int|
            0 <= i < selected.len() ==> #[trigger] acceptable(
                selected,
                kinds_at(children, named_paths(selected)),
                i,
            ),
        total_size(kinds_at(children, named_paths(selected))) == f.total_bytes,
{
    let paths = named_paths(selected);
    let all = relatives(f.files);
    let found = kinds_at(children, paths);
    lemma_gathered_layout(root, children);
    lemma_gathered_names(root, children);
    lemma_gathered_files(root, children);
    lemma_places_no_duplicates(all);
    lemma_same_multiset(paths, all);
    assert forall|i: int| 0 <= i < selected.len() implies #[trigger] acceptable(
        selected,
        found,
        i,
    ) by {
        let p = encode_utf8(selected[i]);
        assert(paths[i] == p);
        assert(paths.contains(p));
        assert(all.contains(p));
        let j = choose|j: int| 0 <= j < all.len() && all[j] == p;
        assert(f.files[j].relative == p);
        assert(found[i] == kind_at(children, parts(f.files[j].relative)));
        let before = selected.take(i);
        if before.contains(selected[i]) {
            let k = choose|k: int| 0 <= k < before.len() && before[k] == selected[i];
            assert(paths[k] == paths[i]);
        }
    }
    lemma_total_size(children, paths);
    lemma_total_size(children, all);
    lemma_sum_of_any_order(paths, all, size_from(children, 0));
}

/// The directories of a manifest of all the files that a walk gathers are those of the walk with
/// a file below them.
proof fn lemma_selected_directories(
    root: Seq<u8>,
    children: Seq<Child>,
    f: Found,
    st: ManifestState,
    laid: Seq<Seq<u8>>,
)
    requires
        orderly(children),
        properly_named(children),
        gather(root, Seq::empty(), children, nothing()) == Ok::<Found, Refusal>(f),
        st.sound(),
        same_items(relatives(st.files), relatives(f.files)),
        forall|q: Seq<u8>| #[trigger] st.directories.contains(q) ==> leads_to(q, st.files),
        sorted_as(laid, f.directories, depth_order()),
    ensures
        sorted_as(
            laid.filter(|p: Seq<u8>| is_needed(p, f.files)),
            st.directories,
            depth_order(),
        ),
{
    broadcast use vstd::seq_lib::group_to_multiset_ensures;

    let keep = |p: Seq<u8>| is_needed(p, f.files);
    let kept = laid.filter(keep);
    let dirs = st.directories;
    let leq = depth_order();
    lemma_gathered_layout(root, children);
    lemma_depth_order();
    lemma_sorted_same_items(laid, f.directories, leq);
    lemma_laid_out(laid, f.directories);
    lemma_filtered(laid, keep);
    assert forall|q: Seq<u8>| #[trigger] laid.contains(q) <==> f.directories.contains(q) by {
        assert(laid.to_multiset().count(q) == f.directories.to_multiset().count(q));
    }
    assert forall|q: Seq<u8>| #[trigger] dirs.contains(q) implies laid.contains(q) && keep(q) by {
        let (i, k) = choose|i: int, k: int|
            0 <= i < st.files.len() && 1 <= k < parts((#[trigger] st.files[i]).relative).len() && q
                == #[trigger] lead(st.files[i].relative, k);
        let rel = st.files[i].relative;
        assert(relatives(st.files)[i] == rel);
        assert(relatives(st.files).contains(rel));
        assert(relatives(f.files).contains(rel));
        let j = choose|j: int| 0 <= j < f.files.len() && relatives(f.files)[j] == rel;
        assert(f.files[j].relative == rel);
        assert(holds_way(f.directories, f.files[j].relative, parts(rel).len() - 1));
        assert(f.directories.contains(lead(rel, k)));
        lemma_lead_parts(rel, k);
        assert(parts(q) == parts(f.files[j].relative).take(k));
    }
    assert forall|q: Seq<u8>| #[trigger] kept.contains(q) <==> dirs.contains(q) by {
        if dirs.contains(q) {
            let i = choose|i: int| 0 <= i < laid.len() && laid[i] == q;
            laid.lemma_filter_contains(keep, i);
        }
        if kept.contains(q) {
            let at = choose|at: int| 0 <= at < kept.len() && kept[at] == q;
            laid.lemma_filter_pred(keep, at);
            laid.lemma_filter_contains_rev(keep, q);
            let (j, k) = choose|j: int, k: int|
                0 <= j < f.files.len() && 1 <= k < parts((#[trigger] f.files[j]).relative).len()
                    && parts(q) == #[trigger] parts(f.files[j].relative).take(k);
            let rel = f.files[j].relative;
            assert(relatives(f.files)[j] == rel);
            assert(relatives(f.files).contains(rel));
            assert(relatives(st.files).contains(rel));
            let i = choose|i: int| 0 <= i < st.files.len() && relatives(st.files)[i] == rel;
            assert(st.files[i].relative == rel);
            assert(holds_directory(dirs, lead(st.files[i].relative, k)));
            lemma_lead_parts(rel, k);
            let e = choose|e: int|
                0 <= e < dirs.len() && parts(#[trigger] dirs[e]) == parts(lead(rel, k));
            assert(dirs.contains(dirs[e]));
            assert(laid.contains(dirs[e]));
            let x = choose|x: int| 0 <= x < laid.len() && laid[x] == dirs[e];
            let y = choose|y: int| 0 <= y < laid.len() && laid[y] == q;
            if x < y {
                assert(parts(laid[x]) != parts(laid[y]));
            } else if y < x {
                assert(parts(laid[y]) != parts(laid[x]));
            }
            assert(dirs[e] == q);
        }
    }
    assert forall|k: Seq<u8>| #[trigger] ranked_with(kept, k, leq) == ranked_with(dirs, k, leq) by {
        lemma_same_ranked(kept, dirs, k);
    }
}

/// A manifest of all the files that a walk gathers, in any order, gives the same files in that
/// order, the same total, and of the directories those with a file below them, laid out as they
/// were. Nothing may change in between: a look at an entry finds what the walk found there.
pub proof fn lemma_manifest_of_walk(
    root: Seq<u8>,
    children: Seq<Child>,
    selected: Seq<Seq<char>>,
    whole: Load,
)
    requires
        orderly(children),
        properly_named(children),
        gather(root, Seq::empty(), children, nothing()) matches Ok(f) && sorted_as(
            whole.directories,
            f.directories,
            depth_order(),
        ) && whole.files == f.files && whole.total_bytes == f.total_bytes,
        names_all(selected, whole.files),
    ensures
        after(
            ManifestState::start(root, selected),
            kinds_at(children, named_paths(selected)),
        ) matches Ok(st) && {
            &&& st.request() == Ok::<Option<Seq<u8>>, Refusal>(None)
            &&& relatives(st.files) == named_paths(selected)
            &&& st.files.to_multiset() == whole.files.to_multiset()
            &&& st.total_bytes == whole.total_bytes
            &&& forall|dirs: Seq<Seq<u8>>| #[trigger]
                sorted_as(dirs, st.directories, depth_order()) ==> dirs
                    == whole.directories.filter(|p: Seq<u8>| is_needed(p, whole.files))
        },
{
    let f = gather(root, Seq::empty(), children, nothing())->Ok_0;
    let paths = named_paths(selected);
    let found = kinds_at(children, paths);
    let start = ManifestState::start(root, selected);
    lemma_all_acceptable(root, children, selected, f);
    lemma_manifest_outcome(root, selected, found);
    lemma_manifest_spelling(root, selected, found);
    let st = after(start, found)->Ok_0;
    assert(relatives(st.files) =~= paths) by {
        assert forall|i: int| 0 <= i < st.files.len() implies relatives(st.files)[i] == paths[i] by {
            assert(st.files[i].relative == encode_utf8(st.selected[i]));
        }
    }
    lemma_same_files(root, children, f, st);
    lemma_selected_directories(root, children, f, st, whole.directories);
    lemma_depth_order();
    assert forall|dirs: Seq<Seq<u8>>| #[trigger]
        sorted_as(dirs, st.directories, depth_order()) implies dirs == whole.directories.filter(
        |p: Seq<u8>| is_needed(p, whole.files),
    ) by {
        lemma_sorted_unique(
            dirs,
            whole.directories.filter(|p: Seq<u8>| is_needed(p, f.files)),
            st.directories,
            depth_order(),
        );
    }
}

/// Files with the same paths from one root are the same.
proof fn lemma_same_files(root: Seq<u8>, children: Seq<Child>, f: Found, st: ManifestState)
    requires
        properly_named(children),
        gather(root, Seq::empty(), children, nothing()) == Ok::<Found, Refusal>(f),
        st.sound(),
        st.root == root,
        relatives(st.files).no_duplicates(),
        relatives(f.files).no_duplicates(),
        same_items(relatives(st.files), relatives(f.files)),
    ensures
        st.files.to_multiset() == f.files.to_multiset(),
{
    let a = st.files;
    let b = f.files;
    lemma_gathered_names(root, children);
    assert forall|x: Pushed| #[trigger] a.contains(x) <==> b.contains(x) by {
        if a.contains(x) {
            let i = choose|i: int| 0 <= i < a.len() && a[i] == x;
            assert(relatives(a)[i] == x.relative);
            assert(relatives(a).contains(x.relative));
            let j = choose|j: int| 0 <= j < b.len() && relatives(b)[j] == x.relative;
            assert(a[i].local == join(root, a[i].relative));
            assert(b[j].local == join(root, b[j].relative));
            assert(b[j] == x);
        }
        if b.contains(x) {
            let j = choose|j: int| 0 <= j < b.len() && b[j] == x;
            assert(relatives(b)[j] == x.relative);
            assert(relatives(b).contains(x.relative));
            assert(relatives(a).contains(x.relative));
            let i = choose|i: int| 0 <= i < a.len() && relatives(a)[i] == x.relative;
            assert(a[i].local == join(root, a[i].relative));
            assert(b[j].local == join(root, b[j].relative));
            assert(a[i] == x);
        }
    }
    assert(a.no_duplicates()) by {
        assert forall|i: int, j: int| 0 <= i < a.len() && 0 <= j < a.len() && i != j implies a[i]
            != a[j] by {
            assert(relatives(a)[i] != relatives(a)[j]);
        }
    }
    assert(b.no_duplicates()) by {
        assert forall|i: int, j: int| 0 <= i < b.len() && 0 <= j < b.len() && i != j implies b[i]
            != b[j] by {
            assert(relatives(b)[i] != relatives(b)[j]);
        }
    }
    lemma_same_counts(a, b);
}

/// Whether there is something that is neither a file nor a directory.
pub open spec fn is_odd(node: Option<Node>) -> bool {
    node == Some(Node::Symlink) || node == Some(Node::Other)
}

proof fn lemma_none_odd(children: Seq<Child>, q: Seq<Part>)
    requires
        only_files(children),
    ensures
        !is_odd(node_at(children, q)),
    decreases children,
{
    if children.len() > 0 && q.len() > 0 {
        let rest = children.skip(1);
        assert(only_files(rest)) by {
            assert forall|i: int| 0 <= i < rest.len() implies match (#[trigger] rest[i]).node {
                Node::File(_) => true,
                Node::Directory(inner) => only_files(inner),
                _ => false,
            } by {
                assert(rest[i] == children[i + 1]);
            }
        }
        let c = children[0];
        if q[0] != Part::Normal(c.name) {
            lemma_none_odd(rest, q);
        } else if let Node::Directory(inner) = c.node {
            lemma_none_odd(inner, q.skip(1));
        }
    }
}

/// Whether the refusal `e` names the path `rel` under the root for what is at the place `p`.
pub open spec fn tells(root: Seq<u8>, rel: Seq<u8>, node: Option<Node>, e: Refusal) -> bool {
    match node {
        Some(Node::Symlink) => e == Refusal::Symlink(join(root, rel)),
        Some(Node::Other) => e == Refusal::Unsupported(join(root, rel)),
        _ => false,
    }
}

/// What is below the rest of the entries comes behind what is at or below the first.
proof fn lemma_rest_later(dir: Seq<u8>, children: Seq<Child>, x: Seq<Part>, p: Seq<Part>)
    requires
        orderly(children),
        children.len() > 0,
        parts(dir).push(Part::Normal(children[0].name)).is_prefix_of(x),
        node_below(dir, children.skip(1), p) is Some,
    ensures
        parts_lt(x, p),
{
    let rest = children.skip(1);
    let n = parts(dir).len() as int;
    let q = p.skip(n);
    let i = lemma_node_named(rest, q);
    assert(rest[i] == children[i + 1]);
    let name = rest[i].name;
    let way = parts(dir).push(Part::Normal(name));
    assert(parts(dir) =~= p.subrange(0, n));
    assert(p[n] == q[0]);
    assert(way =~= p.subrange(0, n + 1));
    assert(bytes_lt(children[0].name, children[i + 1].name));
    lemma_ways_ordered(parts(dir), children[0].name, name, x, p);
}

proof fn lemma_gather_refusal(
    root: Seq<u8>,
    dir: Seq<u8>,
    children: Seq<Child>,
    acc: Found,
) -> (rel: Seq<u8>)
    requires
        orderly(children),
        properly_named(children),
        names_only(dir),
        gather(root, dir, children, acc) is Err,
    ensures
        names_only(rel),
        parts(dir).is_prefix_of(parts(rel)),
        tells(
            root,
            rel,
            node_below(dir, children, parts(rel)),
            gather(root, dir, children, acc)->Err_0,
        ),
        forall|p: Seq<Part>|
            is_odd(#[trigger] node_below(dir, children, p)) ==> p == parts(rel) || parts_lt(
                parts(rel),
                p,
            ),
    decreases children,
{
    let c = children[0];
    let rest = children.skip(1);
    let here = join(dir, c.name);
    let place = parts(dir).push(Part::Normal(c.name));
    let n = parts(dir).len() as int;
    lemma_named_rest(children);
    lemma_orderly_rest(children);
    lemma_child_parts(dir, c.name);
    assert(names_only(here));
    assert(place =~= place.subrange(0, place.len() as int));
    assert(parts(dir) =~= place.subrange(0, n));
    lemma_below_split(dir, children, place);
    let behind = match c.node {
        Node::File(bytes) => Ok(
            Found {
                files: acc.files.push(Pushed { local: under(root, here), relative: here }),
                total_bytes: acc.total_bytes + bytes,
                ..acc
            },
        ),
        Node::Directory(inner) => gather(
            root,
            here,
            inner,
            Found { directories: acc.directories.push(here), ..acc },
        ),
        Node::Symlink => Err(Refusal::Symlink(under(root, here))),
        Node::Other => Err(Refusal::Unsupported(under(root, here))),
    };
    match behind {
        Ok(next) => {
            let rel = lemma_gather_refusal(root, dir, rest, next);
            lemma_below_split(dir, children, parts(rel));
            assert forall|p: Seq<Part>| is_odd(
                #[trigger] node_below(dir, children, p),
            ) implies p == parts(rel) || parts_lt(parts(rel), p) by {
                lemma_below_split(dir, children, p);
                if place.is_prefix_of(p) && p != place {
                    if let Node::Directory(inner) = c.node {
                        let entered = Found { directories: acc.directories.push(here), ..acc };
                        lemma_gather_succeeds(root, here, inner, entered);
                        lemma_none_odd(inner, p.skip(n + 1));
                    }
                }
                assert(is_odd(node_below(dir, rest, p)));
            }
            rel
        },
        Err(_) => match c.node {
            Node::Directory(inner) => {
                let entered = Found { directories: acc.directories.push(here), ..acc };
                let rel = lemma_gather_refusal(root, here, inner, entered);
                let q = parts(rel);
                assert(place =~= q.subrange(0, n + 1));
                assert(parts(dir) =~= q.subrange(0, n)) by {
                    assert forall|i: int| 0 <= i < n implies parts(dir)[i] == q[i] by {
                        assert(place[i] == q[i]);
                    }
                }
                lemma_below_split(dir, children, q);
                assert(node_below(here, inner, q) == node_at(inner, q.skip(n + 1)));
                if q == place {
                    assert(q.skip(n + 1) =~= Seq::empty());
                }
                assert forall|p: Seq<Part>| is_odd(
                    #[trigger] node_below(dir, children, p),
                ) implies p == q || parts_lt(q, p) by {
                    lemma_below_split(dir, children, p);
                    if place.is_prefix_of(p) {
                        assert(is_odd(node_below(here, inner, p)));
                    } else {
                        lemma_rest_later(dir, children, q, p);
                    }
                }
                rel
            },
            _ => {
                assert forall|p: Seq<Part>| is_odd(
                    #[trigger] node_below(dir, children, p),
                ) implies p == place || parts_lt(place, p) by {
                    lemma_below_split(dir, children, p);
                    if !place.is_prefix_of(p) {
                        lemma_rest_later(dir, children, place, p);
                    }
                }
                here
            },
        },
    }
}

/// Whether `e` names the first place, in the order of paths, that holds neither a file nor a
/// directory.
pub open spec fn first_odd(root: Seq<u8>, children: Seq<Child>, e: Refusal, rel: Seq<u8>) -> bool {
    &&& names_only(rel)
    &&& tells(root, rel, node_at(children, parts(rel)), e)
    &&& forall|p: Seq<Part>|
        is_odd(#[trigger] node_at(children, p)) ==> p == parts(rel) || parts_lt(parts(rel), p)
}

/// A walk is refused exactly if there is something that is neither a file nor a directory, for the
/// first such place in the order of paths, and its path is named.
pub proof fn lemma_walk_refusal(root: Seq<u8>, children: Seq<Child>)
    requires
        orderly(children),
        properly_named(children),
    ensures
        match gather(root, Seq::empty(), children, nothing()) {
            Ok(_) => forall|p: Seq<Part>| !is_odd(#[trigger] node_at(children, p)),
            Err(e) => exists|rel: Seq<u8>| #[trigger] first_odd(root, children, e, rel),
        },
{
    let top = Seq::<u8>::empty();
    lemma_no_parts();
    lemma_gather_succeeds(root, top, children, nothing());
    match gather(root, top, children, nothing()) {
        Ok(_) => {
            assert forall|p: Seq<Part>| !is_odd(#[trigger] node_at(children, p)) by {
                lemma_none_odd(children, p);
            }
        },
        Err(e) => {
            let rel = lemma_gather_refusal(root, top, children, nothing());
            assert forall|p: Seq<Part>| #[trigger] node_at(children, p) == node_below(
                top,
                children,
                p,
            ) by {
                assert(parts(top) =~= p.subrange(0, 0));
                assert(p.skip(0) =~= p);
            }
            assert(first_odd(root, children, e, rel));
        },
    }
}

} // verus!
