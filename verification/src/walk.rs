//! What the walk through a directory comes to, in terms of what is in the directory.

use vstd::prelude::*;

use crate::inventory::{
    covers, distinct_places, holds_directory, lemma_laid_out, EntryKind, Load, Pushed, Refusal,
};
use crate::order::{bytes_lt, lemma_lex_first, lemma_sorted_same_items, sorted_as};
use crate::path::{
    depth_order, is_name, is_safe_relative, is_tidy, join, lead, lemma_child_parts,
    lemma_child_tidy, lemma_depth_order, lemma_lead_of_lead, lemma_lead_parts, lemma_name_order,
    lemma_no_parts, name_order, part_lt, parts, parts_lt, sorted_names, Part,
};
use crate::tree::{settled, under, Level, TreeState, Want};

verus! {

/// What is at a path.
pub enum Node {
    File(u64),
    Directory(Seq<Child>),
    Symlink,
    Other,
}

/// An entry of a directory.
pub struct Child {
    pub name: Seq<u8>,
    pub node: Node,
}

pub open spec fn kind(node: Node) -> EntryKind {
    match node {
        Node::File(size) => EntryKind::File(size),
        Node::Directory(_) => EntryKind::Directory,
        Node::Symlink => EntryKind::Symlink,
        Node::Other => EntryKind::Other,
    }
}

pub open spec fn names_of(children: Seq<Child>) -> Seq<Seq<u8>> {
    children.map_values(|c: Child| c.name)
}

/// Whether the entries of a directory, and of every directory in it, stand in the order of
/// their names, no two of which are the same.
pub open spec fn orderly(children: Seq<Child>) -> bool
    decreases children,
{
    &&& forall|i: int, j: int|
        0 <= i < j < children.len() ==> bytes_lt(
            (#[trigger] children[i]).name,
            (#[trigger] children[j]).name,
        )
    &&& forall|i: int|
        0 <= i < children.len() ==> match (#[trigger] children[i]).node {
            Node::Directory(inner) => orderly(inner),
            _ => true,
        }
}

/// What a walk has found.
pub struct Found {
    pub directories: Seq<Seq<u8>>,
    pub files: Seq<Pushed>,
    pub total_bytes: int,
}

pub open spec fn nothing() -> Found {
    Found { directories: Seq::empty(), files: Seq::empty(), total_bytes: 0 }
}

/// `acc` with everything in the directory `dir`, entry by entry, and each directory ahead of
/// what is in it. The first entry that is neither a file nor a directory is refused.
pub open spec fn gather(root: Seq<u8>, dir: Seq<u8>, children: Seq<Child>, acc: Found) -> Result<
    Found,
    Refusal,
>
    decreases children,
{
    if children.len() == 0 {
        Ok(acc)
    } else {
        let rel = join(dir, children[0].name);
        let local = under(root, rel);
        let one = match children[0].node {
            Node::File(size) => Ok(
                Found {
                    files: acc.files.push(Pushed { local, relative: rel }),
                    total_bytes: acc.total_bytes + size,
                    ..acc
                },
            ),
            Node::Directory(inner) => gather(
                root,
                rel,
                inner,
                Found { directories: acc.directories.push(rel), ..acc },
            ),
            Node::Symlink => Err(Refusal::Symlink(local)),
            Node::Other => Err(Refusal::Unsupported(local)),
        };
        match one {
            Ok(next) => gather(root, dir, children.skip(1), next),
            Err(refusal) => Err(refusal),
        }
    }
}

/// How many answers a walk through a directory takes, once it has been listed.
pub open spec fn looks(children: Seq<Child>) -> nat
    decreases children,
{
    if children.len() == 0 {
        0
    } else {
        1 + (match children[0].node {
            Node::Directory(inner) => 1 + looks(inner),
            _ => 0,
        }) + looks(children.skip(1))
    }
}

/// A walk whose questions are answered out of what is there.
pub struct Progress {
    pub state: TreeState,
    /// What is in the directory that is to be listed next.
    pub pending: Seq<Child>,
    /// What is still to be looked at in each level.
    pub open: Seq<Seq<Child>>,
}

pub open spec fn settled_open(open: Seq<Seq<Child>>) -> Seq<Seq<Child>>
    decreases open.len(),
{
    if open.len() > 0 && open.last().len() == 0 {
        settled_open(open.drop_last())
    } else {
        open
    }
}

/// Before anything has been listed of the directory `root`, which holds `children`.
pub open spec fn beginning(root: Seq<u8>, children: Seq<Child>) -> Progress {
    Progress { state: TreeState::start(root), pending: children, open: Seq::empty() }
}

/// The walk after its next question has been answered.
pub open spec fn step(w: Progress) -> Result<Progress, Refusal> {
    match w.state.request() {
        Want::Nothing => Ok(w),
        Want::List(_) => Ok(
            Progress {
                state: w.state.listed(names_of(w.pending)),
                pending: Seq::empty(),
                open: settled_open(w.open.push(w.pending)),
            },
        ),
        Want::Look(_) => {
            let node = w.open.last()[0].node;
            let advanced = w.open.drop_last().push(w.open.last().skip(1));
            match w.state.answer(kind(node)) {
                Err(refusal) => Err(refusal),
                Ok(state) => match node {
                    Node::Directory(inner) => Ok(
                        Progress { state, pending: inner, open: advanced },
                    ),
                    _ => Ok(
                        Progress { state, pending: Seq::empty(), open: settled_open(advanced) },
                    ),
                },
            }
        },
    }
}

/// The walk after its next `n` questions have been answered.
pub open spec fn steps(w: Progress, n: nat) -> Result<Progress, Refusal>
    decreases n,
{
    if n == 0 {
        Ok(w)
    } else {
        match step(w) {
            Ok(next) => steps(next, (n - 1) as nat),
            Err(refusal) => Err(refusal),
        }
    }
}

/// What a walk has found so far.
pub open spec fn found(st: TreeState) -> Found {
    Found { directories: st.directories, files: st.files, total_bytes: st.total_bytes }
}

/// Whether the levels of the walk are those that are open.
spec fn consistent(w: Progress) -> bool {
    &&& w.state.ready()
    &&& w.state.levels.len() == w.open.len()
    &&& forall|i: int|
        0 <= i < w.open.len() ==> (#[trigger] w.state.levels[i]).names == names_of(w.open[i])
    &&& forall|i: int| 0 <= i < w.open.len() ==> orderly(#[trigger] w.open[i])
    &&& orderly(w.pending)
}

/// `acc` with what is left in the open levels, the innermost first.
spec fn climb(root: Seq<u8>, levels: Seq<Level>, open: Seq<Seq<Child>>, acc: Found) -> Result<
    Found,
    Refusal,
>
    decreases open.len(),
{
    if open.len() == 0 {
        Ok(acc)
    } else {
        match gather(root, levels.last().dir, open.last(), acc) {
            Ok(next) => climb(root, levels.drop_last(), open.drop_last(), next),
            Err(refusal) => Err(refusal),
        }
    }
}

/// What the walk will come to.
spec fn outcome(w: Progress) -> Result<Found, Refusal> {
    let st = w.state;
    match st.pending {
        Some(dir) => match gather(st.root, dir, w.pending, found(st)) {
            Ok(next) => climb(st.root, st.levels, w.open, next),
            Err(refusal) => Err(refusal),
        },
        None => climb(st.root, st.levels, w.open, found(st)),
    }
}

spec fn looks_open(open: Seq<Seq<Child>>) -> nat
    decreases open.len(),
{
    if open.len() == 0 {
        0
    } else {
        looks(open.last()) + looks_open(open.drop_last())
    }
}

/// How many questions the walk will still ask, if nothing is refused.
spec fn questions(w: Progress) -> nat {
    looks_open(w.open) + match w.state.pending {
        Some(_) => 1 + looks(w.pending),
        None => 0,
    }
}

/// Names in order stay where they are.
proof fn lemma_orderly_names(children: Seq<Child>)
    requires
        orderly(children),
    ensures
        sorted_names(names_of(children)) == names_of(children),
{
    let names = names_of(children);
    let leq = name_order();
    lemma_name_order();
    names.lemma_sort_by_ensures(leq);
    assert forall|i: int, j: int| 0 <= i < j < names.len() implies #[trigger] leq(
        names[i],
        names[j],
    ) by {
        assert(bytes_lt(children[i].name, children[j].name));
        if bytes_lt(names[j], names[i]) {
            assert(!leq(names[i], names[j]) && !leq(names[j], names[i]));
        }
    }
    vstd::seq_lib::lemma_sorted_unique(names, names.sort_by(leq), leq);
}

/// The rest of an orderly directory is orderly.
pub(crate) proof fn lemma_orderly_rest(children: Seq<Child>)
    requires
        orderly(children),
        children.len() > 0,
    ensures
        orderly(children.skip(1)),
        names_of(children.skip(1)) == names_of(children).skip(1),
{
    let rest = children.skip(1);
    assert(names_of(rest) =~= names_of(children).skip(1));
    assert forall|i: int, j: int| 0 <= i < j < rest.len() implies bytes_lt(
        (#[trigger] rest[i]).name,
        (#[trigger] rest[j]).name,
    ) by {
        assert(bytes_lt(children[i + 1].name, children[j + 1].name));
    }
    assert forall|i: int| 0 <= i < rest.len() implies match (#[trigger] rest[i]).node {
        Node::Directory(inner) => orderly(inner),
        _ => true,
    } by {
        assert(rest[i] == children[i + 1]);
    }
}

/// Levels with nothing left change nothing.
proof fn lemma_settle(root: Seq<u8>, levels: Seq<Level>, open: Seq<Seq<Child>>, acc: Found)
    requires
        levels.len() == open.len(),
        forall|i: int| 0 <= i < open.len() ==> (#[trigger] levels[i]).names == names_of(open[i]),
        forall|i: int| 0 <= i < open.len() ==> orderly(#[trigger] open[i]),
    ensures
        settled(levels).len() == settled_open(open).len(),
        settled(levels).len() > 0 ==> settled(levels).last().names.len() > 0,
        forall|i: int|
            0 <= i < settled_open(open).len() ==> (#[trigger] settled(levels)[i]).names == names_of(
                settled_open(open)[i],
            ),
        forall|i: int|
            0 <= i < settled_open(open).len() ==> orderly(#[trigger] settled_open(open)[i]),
        climb(root, settled(levels), settled_open(open), acc) == climb(root, levels, open, acc),
        looks_open(settled_open(open)) == looks_open(open),
    decreases levels.len(),
{
    if open.len() > 0 {
        let last = open.len() - 1;
        assert(levels[last].names == names_of(open[last]));
        assert(names_of(open[last]).len() == open[last].len());
        if open.last().len() == 0 {
            lemma_settle(root, levels.drop_last(), open.drop_last(), acc);
        }
    }
}

/// Answering a question changes neither what the walk will come to, nor, but for the one, how
/// many questions it will ask.
proof fn lemma_step(w: Progress)
    requires
        consistent(w),
        w.state.request() !is Nothing,
    ensures
        match step(w) {
            Ok(next) => {
                &&& consistent(next)
                &&& outcome(next) == outcome(w)
                &&& questions(next) == questions(w) - 1
            },
            Err(refusal) => outcome(w) == Err::<Found, Refusal>(refusal),
        },
{
    let st = w.state;
    match st.request() {
        Want::Nothing => {},
        Want::List(_) => {
            let dir = st.pending.unwrap();
            lemma_orderly_names(w.pending);
            let levels = st.levels.push(Level { dir, names: names_of(w.pending) });
            let open = w.open.push(w.pending);
            assert forall|i: int| 0 <= i < open.len() implies (#[trigger] levels[i]).names
                == names_of(open[i]) by {
                if i < w.open.len() {
                    assert(st.levels[i].names == names_of(w.open[i]));
                }
            }
            assert forall|i: int| 0 <= i < open.len() implies orderly(#[trigger] open[i]) by {
                if i < w.open.len() {
                    assert(orderly(w.open[i]));
                }
            }
            lemma_settle(st.root, levels, open, found(st));
            assert(levels.drop_last() =~= st.levels);
            assert(open.drop_last() =~= w.open);
            assert(orderly(Seq::<Child>::empty()));
        },
        Want::Look(_) => {
            let last = w.open.len() - 1;
            let top = w.open.last();
            let level = st.levels.last();
            assert(st.levels[last].names == names_of(w.open[last]));
            assert(orderly(w.open[last]));
            assert(names_of(top).len() == top.len());
            assert(level.names[0] == top[0].name);
            lemma_orderly_rest(top);
            let levels = st.advanced();
            let open = w.open.drop_last().push(top.skip(1));
            assert forall|i: int| 0 <= i < open.len() implies (#[trigger] levels[i]).names
                == names_of(open[i]) by {
                if i < last {
                    assert(st.levels[i].names == names_of(w.open[i]));
                }
            }
            assert forall|i: int| 0 <= i < open.len() implies orderly(#[trigger] open[i]) by {
                if i < last {
                    assert(orderly(w.open[i]));
                }
            }
            assert(levels.drop_last() =~= st.levels.drop_last());
            assert(open.drop_last() =~= w.open.drop_last());
            assert(orderly(Seq::<Child>::empty()));
            match top[0].node {
                Node::File(_) => {
                    let next = st.answer(kind(top[0].node))->Ok_0;
                    lemma_settle(st.root, levels, open, found(next));
                },
                Node::Directory(inner) => {
                    assert(orderly(inner));
                },
                _ => {},
            }
        },
    }
}

proof fn lemma_steps(w: Progress)
    requires
        consistent(w),
    ensures
        match steps(w, questions(w)) {
            Ok(last) => last.state.request() is Nothing && outcome(w) == Ok::<Found, Refusal>(
                found(last.state),
            ),
            Err(refusal) => outcome(w) == Err::<Found, Refusal>(refusal),
        },
    decreases questions(w),
{
    if w.state.request() is Nothing {
        assert(w.open.len() == 0);
    } else {
        lemma_step(w);
        assert(questions(w) > 0) by {
            if w.state.pending is None {
                let last = w.open.len() - 1;
                assert(w.state.levels[last].names == names_of(w.open[last]));
                assert(names_of(w.open[last]).len() == w.open[last].len());
            }
        }
        if let Ok(next) = step(w) {
            lemma_steps(next);
        }
    }
}

/// The walk asks as many questions as there are directories to list and entries to look at, and
/// comes to what is there, or to the first refusal.
pub proof fn lemma_walk_gathers_all(root: Seq<u8>, children: Seq<Child>)
    requires
        orderly(children),
    ensures
        match steps(beginning(root, children), 1 + looks(children)) {
            Ok(last) => {
                &&& last.state.request() is Nothing
                &&& gather(root, Seq::empty(), children, nothing()) == Ok::<Found, Refusal>(
                    found(last.state),
                )
            },
            Err(refusal) => gather(root, Seq::empty(), children, nothing()) == Err::<
                Found,
                Refusal,
            >(refusal),
        },
{
    let w = beginning(root, children);
    lemma_steps(w);
    assert(questions(w) == 1 + looks(children));
    assert(found(w.state) == nothing());
}

/// The order in which a directory is listed makes no difference.
pub proof fn lemma_listing_order(st: TreeState, a: Seq<Seq<u8>>, b: Seq<Seq<u8>>)
    requires
        a.to_multiset() == b.to_multiset(),
    ensures
        st.listed(a) == st.listed(b),
{
    let leq = name_order();
    lemma_name_order();
    a.lemma_sort_by_ensures(leq);
    b.lemma_sort_by_ensures(leq);
    vstd::seq_lib::lemma_sorted_unique(a.sort_by(leq), b.sort_by(leq), leq);
}

/// Whether every name in a directory, and in every directory in it, is one.
pub open spec fn properly_named(children: Seq<Child>) -> bool
    decreases children,
{
    forall|i: int|
        0 <= i < children.len() ==> is_name((#[trigger] children[i]).name) && match children[i].node {
            Node::Directory(inner) => properly_named(inner),
            _ => true,
        }
}

pub open spec fn relatives(files: Seq<Pushed>) -> Seq<Seq<u8>> {
    files.map_values(|f: Pushed| f.relative)
}

/// Whether something was found at the place with the components `q`.
pub open spec fn occupied(f: Found, q: Seq<Part>) -> bool {
    ||| exists|i: int| 0 <= i < f.directories.len() && parts(#[trigger] f.directories[i]) == q
    ||| exists|i: int| 0 <= i < f.files.len() && parts((#[trigger] f.files[i]).relative) == q
}

/// Whether no two of the things found are at one place.
pub open spec fn unique(f: Found) -> bool {
    &&& distinct_places(f.directories)
    &&& distinct_places(relatives(f.files))
    &&& forall|i: int, j: int|
        0 <= i < f.directories.len() && 0 <= j < f.files.len() ==> parts(
            #[trigger] f.directories[i],
        ) != parts((#[trigger] f.files[j]).relative)
}

/// Whether the directory `dir` and those above it are there.
spec fn reached(dirs: Seq<Seq<u8>>, dir: Seq<u8>) -> bool {
    forall|k: int| 1 <= k <= parts(dir).len() ==> holds_directory(dirs, #[trigger] lead(dir, k))
}

/// Whether nothing was found at or below the entries of `dir`.
spec fn untouched(f: Found, dir: Seq<u8>, children: Seq<Child>) -> bool {
    forall|q: Seq<Part>, i: int|
        #[trigger] occupied(f, q) && 0 <= i < children.len() ==> !parts(dir).push(
            Part::Normal((#[trigger] children[i]).name),
        ).is_prefix_of(q)
}

/// Whether what was found was found before or is at or below an entry of `dir`.
spec fn only_below(f: Found, acc: Found, dir: Seq<u8>, children: Seq<Child>) -> bool {
    forall|q: Seq<Part>| #[trigger]
        occupied(f, q) ==> occupied(acc, q) || exists|i: int|
            0 <= i < children.len() && parts(dir).push(
                Part::Normal((#[trigger] children[i]).name),
            ).is_prefix_of(q)
}

proof fn lemma_occupied_directory(f: Found, dir: Seq<u8>, q: Seq<Part>)
    ensures
        occupied(Found { directories: f.directories.push(dir), ..f }, q) <==> occupied(f, q)
            || parts(dir) == q,
{
    let g = Found { directories: f.directories.push(dir), ..f };
    assert(g.files == f.files);
    assert(g.directories == f.directories.push(dir));
    assert(f.directories.len() + 1 == g.directories.len());
    if exists|i: int| 0 <= i < f.directories.len() && parts(#[trigger] f.directories[i]) == q {
        let i = choose|i: int| 0 <= i < f.directories.len() && parts(#[trigger] f.directories[i])
            == q;
        assert(g.directories[i] == f.directories[i]);
    }
    if parts(dir) == q {
        assert(parts(g.directories[f.directories.len() as int]) == q);
    }
    if exists|i: int| 0 <= i < g.directories.len() && parts(#[trigger] g.directories[i]) == q {
        let i = choose|i: int| 0 <= i < g.directories.len() && parts(#[trigger] g.directories[i])
            == q;
        if i < f.directories.len() {
            assert(parts(f.directories[i]) == q);
        } else {
            assert(g.directories[i] == dir);
        }
    }
}

proof fn lemma_occupied_file(f: Found, file: Pushed, total: int, q: Seq<Part>)
    ensures
        occupied(Found { files: f.files.push(file), total_bytes: total, ..f }, q) <==> occupied(
            f,
            q,
        ) || parts(file.relative) == q,
{
    let g = Found { files: f.files.push(file), total_bytes: total, ..f };
    assert(g.directories == f.directories);
    assert(f.files.len() + 1 == g.files.len());
    if exists|i: int| 0 <= i < f.files.len() && parts((#[trigger] f.files[i]).relative) == q {
        let i = choose|i: int| 0 <= i < f.files.len() && parts((#[trigger] f.files[i]).relative)
            == q;
        assert(g.files[i] == f.files[i]);
    }
    if parts(file.relative) == q {
        assert(parts(g.files[f.files.len() as int].relative) == q);
    }
    if exists|i: int| 0 <= i < g.files.len() && parts((#[trigger] g.files[i]).relative) == q {
        let i = choose|i: int| 0 <= i < g.files.len() && parts((#[trigger] g.files[i]).relative)
            == q;
        if i < f.files.len() {
            assert(parts(f.files[i].relative) == q);
        } else {
            assert(g.files[i] == file);
        }
    }
}

/// Everything above what is held stays held when directories are added.
proof fn lemma_held_longer(dirs: Seq<Seq<u8>>, more: Seq<Seq<u8>>, p: Seq<u8>)
    requires
        dirs.is_prefix_of(more),
        holds_directory(dirs, p),
    ensures
        holds_directory(more, p),
{
    let i = choose|i: int| 0 <= i < dirs.len() && parts(#[trigger] dirs[i]) == parts(p);
    assert(more[i] == dirs[i]);
}

/// The directories above an entry of a directory that has been reached are there.
proof fn lemma_child_covered(dirs: Seq<Seq<u8>>, dir: Seq<u8>, name: Seq<u8>, k: int)
    requires
        is_name(name),
        reached(dirs, dir),
        1 <= k <= parts(dir).len(),
    ensures
        holds_directory(dirs, lead(join(dir, name), k)),
{
    let rel = join(dir, name);
    lemma_child_parts(dir, name);
    lemma_lead_parts(rel, k);
    lemma_lead_parts(dir, k);
    assert(parts(rel).take(k) =~= parts(dir).take(k));
    assert(holds_directory(dirs, lead(dir, k)));
    let i = choose|i: int| 0 <= i < dirs.len() && parts(#[trigger] dirs[i]) == parts(lead(dir, k));
    assert(parts(dirs[i]) == parts(lead(rel, k)));
}

/// No entry of an orderly directory has the name of the first.
pub(crate) proof fn lemma_first_name(children: Seq<Child>, i: int)
    requires
        orderly(children),
        0 < i < children.len(),
    ensures
        children[i].name != children[0].name,
{
    let leq = name_order();
    lemma_name_order();
    assert(bytes_lt(children[0].name, children[i].name));
    assert(leq(children[0].name, children[0].name));
}

/// Two directions out of one directory part at once.
proof fn lemma_ways_part(base: Seq<Part>, a: Seq<u8>, b: Seq<u8>, q: Seq<Part>)
    requires
        a != b,
    ensures
        !(base.push(Part::Normal(a)).is_prefix_of(q) && base.push(Part::Normal(b)).is_prefix_of(q)),
{
    let x = base.push(Part::Normal(a));
    let y = base.push(Part::Normal(b));
    if x.is_prefix_of(q) && y.is_prefix_of(q) {
        let n = base.len() as int;
        assert(x[n] == q.subrange(0, x.len() as int)[n]);
        assert(y[n] == q.subrange(0, y.len() as int)[n]);
    }
}

proof fn lemma_prefix_shorter(a: Seq<Part>, p: Part, q: Seq<Part>)
    requires
        a.push(p).is_prefix_of(q),
    ensures
        a.is_prefix_of(q),
{
    assert(a =~= q.subrange(0, a.len() as int)) by {
        assert(a.push(p) =~= q.subrange(0, a.len() as int + 1));
        assert forall|i: int| 0 <= i < a.len() implies a[i] == q[i] by {
            assert(a.push(p)[i] == q.subrange(0, a.len() as int + 1)[i]);
        }
    }
}

proof fn lemma_add_file(acc: Found, file: Pushed, total: int)
    requires
        unique(acc),
        !occupied(acc, parts(file.relative)),
    ensures
        unique(Found { files: acc.files.push(file), total_bytes: total, ..acc }),
{
    let g = Found { files: acc.files.push(file), total_bytes: total, ..acc };
    let a = relatives(acc.files);
    let b = relatives(g.files);
    assert(b =~= a.push(file.relative));
    assert forall|i: int, j: int| 0 <= i < j < b.len() implies parts(#[trigger] b[i]) != parts(
        #[trigger] b[j],
    ) by {
        assert(b[i] == a[i]);
        if j < a.len() {
            assert(b[j] == a[j]);
        } else {
            assert(a[i] == acc.files[i].relative);
        }
    }
    assert forall|i: int, j: int|
        0 <= i < g.directories.len() && 0 <= j < g.files.len() implies parts(
        #[trigger] g.directories[i],
    ) != parts((#[trigger] g.files[j]).relative) by {
        assert(g.directories[i] == acc.directories[i]);
        if j < acc.files.len() {
            assert(g.files[j] == acc.files[j]);
        }
    }
}

proof fn lemma_add_directory(acc: Found, dir: Seq<u8>)
    requires
        unique(acc),
        !occupied(acc, parts(dir)),
    ensures
        unique(Found { directories: acc.directories.push(dir), ..acc }),
{
    let g = Found { directories: acc.directories.push(dir), ..acc };
    assert(g.files == acc.files);
    assert forall|i: int, j: int| 0 <= i < j < g.directories.len() implies parts(
        #[trigger] g.directories[i],
    ) != parts(#[trigger] g.directories[j]) by {
        assert(g.directories[i] == acc.directories[i]);
        if j < acc.directories.len() {
            assert(g.directories[j] == acc.directories[j]);
        }
    }
    assert forall|i: int, j: int|
        0 <= i < g.directories.len() && 0 <= j < g.files.len() implies parts(
        #[trigger] g.directories[i],
    ) != parts((#[trigger] g.files[j]).relative) by {
        assert(g.files[j] == acc.files[j]);
        if i < acc.directories.len() {
            assert(g.directories[i] == acc.directories[i]);
        }
    }
}

pub(crate) proof fn lemma_named_rest(children: Seq<Child>)
    requires
        properly_named(children),
        children.len() > 0,
    ensures
        properly_named(children.skip(1)),
{
    let rest = children.skip(1);
    assert forall|i: int| 0 <= i < rest.len() implies is_name((#[trigger] rest[i]).name)
        && match rest[i].node {
        Node::Directory(inner) => properly_named(inner),
        _ => true,
    } by {
        assert(rest[i] == children[i + 1]);
    }
}

/// What is found in a directory keeps everything at a place of its own and below directories
/// that were found.
proof fn lemma_gather(root: Seq<u8>, dir: Seq<u8>, children: Seq<Child>, acc: Found)
    requires
        orderly(children),
        properly_named(children),
        reached(acc.directories, dir),
        covers(acc.directories, acc.files),
        unique(acc),
        untouched(acc, dir, children),
    ensures
        gather(root, dir, children, acc) matches Ok(f) ==> {
            &&& acc.directories.is_prefix_of(f.directories)
            &&& covers(f.directories, f.files)
            &&& unique(f)
            &&& only_below(f, acc, dir, children)
        },
    decreases children,
{
    if children.len() == 0 {
        assert(acc.directories.is_prefix_of(acc.directories)) by {
            assert(acc.directories =~= acc.directories.subrange(
                0,
                acc.directories.len() as int,
            ));
        }
    } else if gather(root, dir, children, acc) is Ok {
        let c = children[0];
        let rest = children.skip(1);
        let rel = join(dir, c.name);
        let place = parts(dir).push(Part::Normal(c.name));
        lemma_child_parts(dir, c.name);
        lemma_orderly_rest(children);
        lemma_named_rest(children);
        assert(place.is_prefix_of(place)) by {
            assert(place =~= place.subrange(0, place.len() as int));
        }
        assert(!occupied(acc, place)) by {
            if occupied(acc, place) {
                assert(!parts(dir).push(Part::Normal(children[0].name)).is_prefix_of(place));
            }
        }
        match c.node {
            Node::File(size) => {
                let file = Pushed { local: under(root, rel), relative: rel };
                let g = Found {
                    files: acc.files.push(file),
                    total_bytes: acc.total_bytes + size,
                    ..acc
                };
                lemma_add_file(acc, file, acc.total_bytes + size);
                lemma_file_covered(acc, dir, c.name, file, g);
                assert forall|q: Seq<Part>| #[trigger] occupied(g, q) <==> occupied(acc, q) || q
                    == place by {
                    lemma_occupied_file(acc, file, acc.total_bytes + size, q);
                }
                lemma_rest_untouched(acc, g, dir, children);
                lemma_gather(root, dir, rest, g);
                let f = gather(root, dir, children, acc)->Ok_0;
                lemma_only_below(f, g, acc, dir, children);
            },
            Node::Directory(inner) => {
                let g = Found { directories: acc.directories.push(rel), ..acc };
                assert(acc.directories.is_prefix_of(g.directories)) by {
                    assert(acc.directories =~= g.directories.subrange(
                        0,
                        acc.directories.len() as int,
                    ));
                }
                lemma_add_directory(acc, rel);
                assert forall|q: Seq<Part>| #[trigger] occupied(g, q) <==> occupied(acc, q) || q
                    == place by {
                    lemma_occupied_directory(acc, rel, q);
                }
                lemma_covers_longer(acc.directories, g.directories, acc.files);
                lemma_reached_child(acc.directories, g.directories, dir, c.name);
                assert(untouched(g, rel, inner)) by {
                    assert forall|q: Seq<Part>, i: int|
                        #[trigger] occupied(g, q) && 0 <= i < inner.len() implies !parts(rel).push(
                        Part::Normal((#[trigger] inner[i]).name),
                    ).is_prefix_of(q) by {
                        let p = Part::Normal(inner[i].name);
                        if parts(rel).push(p).is_prefix_of(q) {
                            lemma_prefix_shorter(place, p, q);
                            assert(occupied(acc, q));
                            assert(!parts(dir).push(
                                Part::Normal(children[0].name),
                            ).is_prefix_of(q));
                        }
                    }
                }
                lemma_gather(root, rel, inner, g);
                let f1 = gather(root, rel, inner, g)->Ok_0;
                assert(reached(f1.directories, dir)) by {
                    assert forall|k: int| 1 <= k <= parts(dir).len() implies holds_directory(
                        f1.directories,
                        #[trigger] lead(dir, k),
                    ) by {
                        assert(holds_directory(acc.directories, lead(dir, k)));
                        lemma_held_longer(acc.directories, g.directories, lead(dir, k));
                        lemma_held_longer(g.directories, f1.directories, lead(dir, k));
                    }
                }
                assert forall|q: Seq<Part>| #[trigger] occupied(f1, q) implies occupied(acc, q)
                    || place.is_prefix_of(q) by {
                    if !occupied(g, q) {
                        let i = choose|i: int|
                            0 <= i < inner.len() && parts(rel).push(
                                Part::Normal((#[trigger] inner[i]).name),
                            ).is_prefix_of(q);
                        lemma_prefix_shorter(place, Part::Normal(inner[i].name), q);
                    }
                }
                lemma_rest_untouched(acc, f1, dir, children);
                lemma_gather(root, dir, rest, f1);
                let f = gather(root, dir, children, acc)->Ok_0;
                lemma_only_below(f, f1, acc, dir, children);
                assert(acc.directories.is_prefix_of(f.directories)) by {
                    assert(acc.directories =~= f.directories.subrange(
                        0,
                        acc.directories.len() as int,
                    ));
                }
            },
            _ => {},
        }
    }
}

/// What the first entry of a directory adds is not at or below the others.
proof fn lemma_rest_untouched(acc: Found, g: Found, dir: Seq<u8>, children: Seq<Child>)
    requires
        orderly(children),
        children.len() > 0,
        untouched(acc, dir, children),
        forall|q: Seq<Part>| #[trigger]
            occupied(g, q) ==> occupied(acc, q) || parts(dir).push(
                Part::Normal(children[0].name),
            ).is_prefix_of(q),
    ensures
        untouched(g, dir, children.skip(1)),
{
    let rest = children.skip(1);
    assert forall|q: Seq<Part>, i: int|
        #[trigger] occupied(g, q) && 0 <= i < rest.len() implies !parts(dir).push(
        Part::Normal((#[trigger] rest[i]).name),
    ).is_prefix_of(q) by {
        assert(rest[i] == children[i + 1]);
        if !occupied(acc, q) {
            lemma_first_name(children, i + 1);
            lemma_ways_part(parts(dir), children[0].name, rest[i].name, q);
        }
    }
}

/// What is below the first entry of a directory or below one of the rest is below an entry.
proof fn lemma_only_below(f: Found, g: Found, acc: Found, dir: Seq<u8>, children: Seq<Child>)
    requires
        children.len() > 0,
        only_below(f, g, dir, children.skip(1)),
        forall|q: Seq<Part>| #[trigger]
            occupied(g, q) ==> occupied(acc, q) || parts(dir).push(
                Part::Normal(children[0].name),
            ).is_prefix_of(q),
    ensures
        only_below(f, acc, dir, children),
{
    let rest = children.skip(1);
    assert forall|q: Seq<Part>| #[trigger] occupied(f, q) implies occupied(acc, q) || exists|i: int|
        0 <= i < children.len() && parts(dir).push(
            Part::Normal((#[trigger] children[i]).name),
        ).is_prefix_of(q) by {
        if occupied(g, q) {
            if !occupied(acc, q) {
                assert(parts(dir).push(Part::Normal(children[0].name)).is_prefix_of(q));
            }
        } else {
            let i = choose|i: int|
                0 <= i < rest.len() && parts(dir).push(
                    Part::Normal((#[trigger] rest[i]).name),
                ).is_prefix_of(q);
            assert(rest[i] == children[i + 1]);
        }
    }
}

proof fn lemma_covers_longer(dirs: Seq<Seq<u8>>, more: Seq<Seq<u8>>, files: Seq<Pushed>)
    requires
        dirs.is_prefix_of(more),
        covers(dirs, files),
    ensures
        covers(more, files),
{
    assert forall|i: int, k: int|
        0 <= i < files.len() && 1 <= k < parts((#[trigger] files[i]).relative).len()
            implies holds_directory(more, #[trigger] lead(files[i].relative, k)) by {
        assert(holds_directory(dirs, lead(files[i].relative, k)));
        lemma_held_longer(dirs, more, lead(files[i].relative, k));
    }
}

proof fn lemma_file_covered(acc: Found, dir: Seq<u8>, name: Seq<u8>, file: Pushed, g: Found)
    requires
        is_name(name),
        reached(acc.directories, dir),
        covers(acc.directories, acc.files),
        file.relative == join(dir, name),
        g.directories == acc.directories,
        g.files == acc.files.push(file),
    ensures
        covers(g.directories, g.files),
{
    lemma_child_parts(dir, name);
    assert forall|i: int, k: int|
        0 <= i < g.files.len() && 1 <= k < parts((#[trigger] g.files[i]).relative).len()
            implies holds_directory(g.directories, #[trigger] lead(g.files[i].relative, k)) by {
        if i < acc.files.len() {
            assert(g.files[i] == acc.files[i]);
            assert(holds_directory(acc.directories, lead(acc.files[i].relative, k)));
        } else {
            lemma_child_covered(acc.directories, dir, name, k);
        }
    }
}

proof fn lemma_reached_child(
    dirs: Seq<Seq<u8>>,
    more: Seq<Seq<u8>>,
    dir: Seq<u8>,
    name: Seq<u8>,
)
    requires
        is_name(name),
        reached(dirs, dir),
        dirs.is_prefix_of(more),
        more == dirs.push(join(dir, name)),
    ensures
        reached(more, join(dir, name)),
{
    let rel = join(dir, name);
    lemma_child_parts(dir, name);
    assert forall|k: int| 1 <= k <= parts(rel).len() implies holds_directory(
        more,
        #[trigger] lead(rel, k),
    ) by {
        if k <= parts(dir).len() {
            lemma_child_covered(dirs, dir, name, k);
            lemma_held_longer(dirs, more, lead(rel, k));
        } else {
            lemma_lead_parts(rel, k);
            assert(parts(rel).take(k) =~= parts(rel));
            assert(parts(more[dirs.len() as int]) == parts(lead(rel, k)));
        }
    }
}

/// Whether `dirs` holds the paths of the first one to `n` components of `p`.
pub open spec fn holds_way(dirs: Seq<Seq<u8>>, p: Seq<u8>, n: int) -> bool {
    forall|k: int| 1 <= k <= n ==> dirs.contains(#[trigger] lead(p, k))
}

/// Whether every directory above something that was found was found.
pub open spec fn connected(f: Found) -> bool {
    &&& forall|i: int|
        0 <= i < f.directories.len() ==> holds_way(
            f.directories,
            #[trigger] f.directories[i],
            parts(f.directories[i]).len() as int,
        )
    &&& forall|i: int|
        0 <= i < f.files.len() ==> holds_way(
            f.directories,
            (#[trigger] f.files[i]).relative,
            parts(f.files[i].relative).len() - 1,
        )
}

proof fn lemma_way_longer(dirs: Seq<Seq<u8>>, more: Seq<Seq<u8>>, p: Seq<u8>, n: int)
    requires
        dirs.is_prefix_of(more),
        holds_way(dirs, p, n),
    ensures
        holds_way(more, p, n),
{
    assert forall|k: int| 1 <= k <= n implies more.contains(#[trigger] lead(p, k)) by {
        let i = choose|i: int| 0 <= i < dirs.len() && dirs[i] == lead(p, k);
        assert(more[i] == dirs[i]);
    }
}

/// The directories above an entry of a directory are the directory and those above it.
proof fn lemma_way_of_child(dirs: Seq<Seq<u8>>, dir: Seq<u8>, name: Seq<u8>)
    requires
        is_name(name),
        is_tidy(dir),
        holds_way(dirs, dir, parts(dir).len() as int),
    ensures
        holds_way(dirs, join(dir, name), parts(dir).len() as int),
{
    let rel = join(dir, name);
    let n = parts(dir).len() as int;
    lemma_child_parts(dir, name);
    lemma_child_tidy(dir, name);
    assert forall|k: int| 1 <= k <= n implies dirs.contains(#[trigger] lead(rel, k)) by {
        lemma_lead_of_lead(rel, n, k);
        assert(dirs.contains(lead(dir, k)));
    }
}

proof fn lemma_gather_connected(root: Seq<u8>, dir: Seq<u8>, children: Seq<Child>, acc: Found)
    requires
        properly_named(children),
        is_tidy(dir),
        holds_way(acc.directories, dir, parts(dir).len() as int),
        connected(acc),
    ensures
        gather(root, dir, children, acc) matches Ok(f) ==> connected(f)
            && acc.directories.is_prefix_of(f.directories),
    decreases children,
{
    if children.len() == 0 {
        assert(acc.directories =~= acc.directories.subrange(0, acc.directories.len() as int));
    } else if gather(root, dir, children, acc) is Ok {
        let c = children[0];
        let rest = children.skip(1);
        let rel = join(dir, c.name);
        let n = parts(dir).len() as int;
        lemma_named_rest(children);
        lemma_child_parts(dir, c.name);
        lemma_child_tidy(dir, c.name);
        lemma_way_of_child(acc.directories, dir, c.name);
        match c.node {
            Node::File(size) => {
                let g = Found {
                    files: acc.files.push(Pushed { local: under(root, rel), relative: rel }),
                    total_bytes: acc.total_bytes + size,
                    ..acc
                };
                assert forall|i: int| 0 <= i < g.files.len() implies holds_way(
                    g.directories,
                    (#[trigger] g.files[i]).relative,
                    parts(g.files[i].relative).len() - 1,
                ) by {
                    if i < acc.files.len() {
                        assert(g.files[i] == acc.files[i]);
                    }
                }
                lemma_gather_connected(root, dir, rest, g);
            },
            Node::Directory(inner) => {
                let g = Found { directories: acc.directories.push(rel), ..acc };
                assert(acc.directories =~= g.directories.subrange(
                    0,
                    acc.directories.len() as int,
                ));
                lemma_way_longer(acc.directories, g.directories, rel, n);
                assert(g.directories[acc.directories.len() as int] == rel);
                assert forall|k: int| 1 <= k <= n + 1 implies g.directories.contains(
                    #[trigger] lead(rel, k),
                ) by {
                    if k == n + 1 {
                        assert(lead(rel, k) == rel);
                    }
                }
                assert forall|i: int| 0 <= i < g.directories.len() implies holds_way(
                    g.directories,
                    #[trigger] g.directories[i],
                    parts(g.directories[i]).len() as int,
                ) by {
                    if i < acc.directories.len() {
                        assert(g.directories[i] == acc.directories[i]);
                        lemma_way_longer(
                            acc.directories,
                            g.directories,
                            acc.directories[i],
                            parts(acc.directories[i]).len() as int,
                        );
                    }
                }
                assert forall|i: int| 0 <= i < g.files.len() implies holds_way(
                    g.directories,
                    (#[trigger] g.files[i]).relative,
                    parts(g.files[i].relative).len() - 1,
                ) by {
                    lemma_way_longer(
                        acc.directories,
                        g.directories,
                        acc.files[i].relative,
                        parts(acc.files[i].relative).len() - 1,
                    );
                }
                lemma_gather_connected(root, rel, inner, g);
                let f1 = gather(root, rel, inner, g)->Ok_0;
                lemma_way_longer(acc.directories, g.directories, dir, n);
                lemma_way_longer(g.directories, f1.directories, dir, n);
                lemma_gather_connected(root, dir, rest, f1);
                let f = gather(root, dir, children, acc)->Ok_0;
                assert(acc.directories =~= f.directories.subrange(
                    0,
                    acc.directories.len() as int,
                ));
            },
            _ => {},
        }
    }
}

/// Whether each file stands behind those whose path comes first.
pub open spec fn ascending(files: Seq<Pushed>) -> bool {
    forall|i: int, j: int|
        0 <= i < j < files.len() ==> parts_lt(
            parts((#[trigger] files[i]).relative),
            parts((#[trigger] files[j]).relative),
        )
}

/// Whether the place `q` is at or below an entry of `dir`.
spec fn below(dir: Seq<u8>, children: Seq<Child>, q: Seq<Part>) -> bool {
    exists|k: int|
        0 <= k < children.len() && parts(dir).push(
            Part::Normal((#[trigger] children[k]).name),
        ).is_prefix_of(q)
}

/// Whether the files come ahead of everything at or below an entry of `dir`.
spec fn ahead(files: Seq<Pushed>, dir: Seq<u8>, children: Seq<Child>) -> bool {
    forall|i: int, q: Seq<Part>|
        0 <= i < files.len() && #[trigger] below(dir, children, q) ==> parts_lt(
            parts((#[trigger] files[i]).relative),
            q,
        )
}

/// Where two ways part, the order of the names decides.
pub(crate) proof fn lemma_ways_ordered(base: Seq<Part>, a: Seq<u8>, b: Seq<u8>, x: Seq<Part>, y: Seq<Part>)
    requires
        bytes_lt(a, b),
        base.push(Part::Normal(a)).is_prefix_of(x),
        base.push(Part::Normal(b)).is_prefix_of(y),
    ensures
        parts_lt(x, y),
{
    let n = base.len() as int;
    let p = base.push(Part::Normal(a));
    let q = base.push(Part::Normal(b));
    assert(p =~= x.subrange(0, n + 1));
    assert(q =~= y.subrange(0, n + 1));
    assert forall|i: int| 0 <= i < n implies x[i] == y[i] by {
        assert(x[i] == p[i]);
        assert(y[i] == q[i]);
    }
    assert(x[n] == p[n] && y[n] == q[n]);
    let leq = name_order();
    lemma_name_order();
    assert(leq(a, a));
    lemma_lex_first(x, y, n, |x: Part, y: Part| part_lt(x, y));
}

/// What the first entry of a directory adds comes ahead of the others.
proof fn lemma_rest_behind(
    acc: Seq<Pushed>,
    files: Seq<Pushed>,
    dir: Seq<u8>,
    children: Seq<Child>,
)
    requires
        orderly(children),
        children.len() > 0,
        ahead(acc, dir, children),
        acc.is_prefix_of(files),
        forall|i: int|
            acc.len() <= i < files.len() ==> parts(dir).push(
                Part::Normal(children[0].name),
            ).is_prefix_of(parts((#[trigger] files[i]).relative)),
    ensures
        ahead(files, dir, children.skip(1)),
{
    let rest = children.skip(1);
    assert forall|i: int, q: Seq<Part>|
        0 <= i < files.len() && #[trigger] below(dir, rest, q) implies parts_lt(
        parts((#[trigger] files[i]).relative),
        q,
    ) by {
        let k = choose|k: int|
            0 <= k < rest.len() && parts(dir).push(
                Part::Normal((#[trigger] rest[k]).name),
            ).is_prefix_of(q);
        assert(rest[k] == children[k + 1]);
        if i < acc.len() {
            assert(files[i] == acc[i]);
            assert(below(dir, children, q));
        } else {
            assert(bytes_lt(children[0].name, children[k + 1].name));
            lemma_ways_ordered(
                parts(dir),
                children[0].name,
                rest[k].name,
                parts(files[i].relative),
                q,
            );
        }
    }
}

proof fn lemma_below_rest(dir: Seq<u8>, children: Seq<Child>, q: Seq<Part>)
    requires
        children.len() > 0,
        below(dir, children.skip(1), q),
    ensures
        below(dir, children, q),
{
    let rest = children.skip(1);
    let k = choose|k: int|
        0 <= k < rest.len() && parts(dir).push(
            Part::Normal((#[trigger] rest[k]).name),
        ).is_prefix_of(q);
    assert(rest[k] == children[k + 1]);
}

proof fn lemma_gather_ascending(root: Seq<u8>, dir: Seq<u8>, children: Seq<Child>, acc: Found)
    requires
        orderly(children),
        properly_named(children),
        ascending(acc.files),
        ahead(acc.files, dir, children),
    ensures
        gather(root, dir, children, acc) matches Ok(f) ==> {
            &&& ascending(f.files)
            &&& acc.files.is_prefix_of(f.files)
            &&& forall|i: int|
                acc.files.len() <= i < f.files.len() ==> below(
                    dir,
                    children,
                    parts((#[trigger] f.files[i]).relative),
                )
        },
    decreases children,
{
    if children.len() == 0 {
        assert(acc.files =~= acc.files.subrange(0, acc.files.len() as int));
    } else if gather(root, dir, children, acc) is Ok {
        let c = children[0];
        let rest = children.skip(1);
        let rel = join(dir, c.name);
        let place = parts(dir).push(Part::Normal(c.name));
        let f = gather(root, dir, children, acc)->Ok_0;
        lemma_named_rest(children);
        lemma_orderly_rest(children);
        lemma_child_parts(dir, c.name);
        assert(place =~= place.subrange(0, place.len() as int));
        let g = match c.node {
            Node::File(size) => {
                let g = Found {
                    files: acc.files.push(Pushed { local: under(root, rel), relative: rel }),
                    total_bytes: acc.total_bytes + size,
                    ..acc
                };
                assert(below(dir, children, place)) by {
                    assert(children[0].name == c.name);
                }
                assert(acc.files =~= g.files.subrange(0, acc.files.len() as int));
                assert forall|i: int, j: int| 0 <= i < j < g.files.len() implies parts_lt(
                    parts((#[trigger] g.files[i]).relative),
                    parts((#[trigger] g.files[j]).relative),
                ) by {
                    assert(g.files[i] == acc.files[i]);
                    if j < acc.files.len() {
                        assert(g.files[j] == acc.files[j]);
                    }
                }
                g
            },
            Node::Directory(inner) => {
                let entered = Found { directories: acc.directories.push(rel), ..acc };
                assert forall|i: int, q: Seq<Part>|
                    0 <= i < acc.files.len() && #[trigger] below(rel, inner, q) implies parts_lt(
                    parts((#[trigger] acc.files[i]).relative),
                    q,
                ) by {
                    lemma_below_inner(rel, inner, q);
                    assert(children[0].name == c.name);
                    assert(below(dir, children, q));
                }
                lemma_gather_ascending(root, rel, inner, entered);
                let g = gather(root, rel, inner, entered)->Ok_0;
                assert forall|i: int| acc.files.len() <= i < g.files.len() implies place.is_prefix_of(
                    parts((#[trigger] g.files[i]).relative),
                ) by {
                    lemma_below_inner(rel, inner, parts(g.files[i].relative));
                }
                g
            },
            _ => acc,
        };
        lemma_rest_behind(acc.files, g.files, dir, children);
        lemma_gather_ascending(root, dir, rest, g);
        assert(acc.files =~= f.files.subrange(0, acc.files.len() as int));
        assert forall|i: int| acc.files.len() <= i < f.files.len() implies below(
            dir,
            children,
            parts((#[trigger] f.files[i]).relative),
        ) by {
            let q = parts(f.files[i].relative);
            if i < g.files.len() {
                assert(f.files[i] == g.files[i]);
                assert(children[0].name == c.name);
                assert(place.is_prefix_of(q));
            } else {
                lemma_below_rest(dir, children, q);
            }
        }
    }
}

proof fn lemma_below_inner(dir: Seq<u8>, children: Seq<Child>, q: Seq<Part>)
    requires
        below(dir, children, q),
    ensures
        parts(dir).is_prefix_of(q),
{
    let k = choose|k: int|
        0 <= k < children.len() && parts(dir).push(
            Part::Normal((#[trigger] children[k]).name),
        ).is_prefix_of(q);
    lemma_prefix_shorter(parts(dir), Part::Normal(children[k].name), q);
}

/// What a walk gathers is all at places of its own, the directories above everything are among
/// what it gathers, and the files stand in the order of their paths.
pub proof fn lemma_gathered_layout(root: Seq<u8>, children: Seq<Child>)
    requires
        orderly(children),
        properly_named(children),
    ensures
        gather(root, Seq::empty(), children, nothing()) matches Ok(f) ==> {
            &&& unique(f)
            &&& covers(f.directories, f.files)
            &&& connected(f)
            &&& ascending(f.files)
        },
{
    let top = Seq::<u8>::empty();
    lemma_no_parts();
    lemma_gather(root, top, children, nothing());
    lemma_lead_parts(top, 0);
    assert(lead(top, 0) =~= top);
    lemma_gather_connected(root, top, children, nothing());
    lemma_gather_ascending(root, top, children, nothing());
}

/// Whether a path consists of names.
pub open spec fn names_only(p: Seq<u8>) -> bool {
    forall|i: int| 0 <= i < parts(p).len() ==> #[trigger] parts(p)[i] is Normal
}

/// Whether the files are named from `root`, each by a path that consists of names.
pub open spec fn well_placed(root: Seq<u8>, files: Seq<Pushed>) -> bool {
    forall|i: int|
        0 <= i < files.len() ==> {
            &&& names_only((#[trigger] files[i]).relative)
            &&& parts(files[i].relative).len() > 0
            &&& files[i].local == join(root, files[i].relative)
        }
}

proof fn lemma_gather_names(root: Seq<u8>, dir: Seq<u8>, children: Seq<Child>, acc: Found)
    requires
        properly_named(children),
        names_only(dir),
        well_placed(root, acc.files),
    ensures
        gather(root, dir, children, acc) matches Ok(f) ==> well_placed(root, f.files),
    decreases children,
{
    if children.len() > 0 {
        let c = children[0];
        let rest = children.skip(1);
        let rel = join(dir, c.name);
        lemma_child_parts(dir, c.name);
        assert(names_only(rel));
        lemma_named_rest(children);
        match c.node {
            Node::File(size) => {
                let next = Found {
                    files: acc.files.push(Pushed { local: under(root, rel), relative: rel }),
                    total_bytes: acc.total_bytes + size,
                    ..acc
                };
                lemma_gather_names(root, dir, rest, next);
            },
            Node::Directory(inner) => {
                let before = Found { directories: acc.directories.push(rel), ..acc };
                lemma_gather_names(root, rel, inner, before);
                if let Ok(next) = gather(root, rel, inner, before) {
                    lemma_gather_names(root, dir, rest, next);
                }
            },
            _ => {},
        }
    }
}

/// Every file that a walk gathers is named from the root by a safe path that consists of names.
pub proof fn lemma_gathered_names(root: Seq<u8>, children: Seq<Child>)
    requires
        properly_named(children),
    ensures
        gather(root, Seq::empty(), children, nothing()) matches Ok(f) ==> well_placed(root, f.files)
            && forall|i: int|
            0 <= i < f.files.len() ==> is_safe_relative((#[trigger] f.files[i]).relative),
{
    let top = Seq::<u8>::empty();
    lemma_no_parts();
    lemma_gather_names(root, top, children, nothing());
    if let Ok(f) = gather(root, top, children, nothing()) {
        assert forall|i: int| 0 <= i < f.files.len() implies is_safe_relative(
            (#[trigger] f.files[i]).relative,
        ) by {
            let rel = f.files[i].relative;
            assert(parts(rel)[0] is Normal);
        }
    }
}

/// The inventory of a walk holds every directory above a file or a directory of it, each once and
/// each behind those above it, and the files in the order of their paths.
pub proof fn lemma_walk_inventory(root: Seq<u8>, children: Seq<Child>, load: Load)
    requires
        orderly(children),
        properly_named(children),
        gather(root, Seq::empty(), children, nothing()) matches Ok(f) && sorted_as(
            load.directories,
            f.directories,
            depth_order(),
        ) && load.files == f.files,
    ensures
        covers(load.directories, load.files),
        distinct_places(load.directories),
        forall|i: int, j: int|
            0 <= i < load.directories.len() && 0 <= j < load.directories.len() && parts(
                #[trigger] load.directories[i],
            ).len() < parts(#[trigger] load.directories[j]).len() ==> i < j,
        forall|i: int|
            0 <= i < load.directories.len() ==> holds_way(
                load.directories,
                #[trigger] load.directories[i],
                parts(load.directories[i]).len() as int,
            ),
        ascending(load.files),
{
    broadcast use vstd::seq_lib::group_to_multiset_ensures;

    let f = gather(root, Seq::empty(), children, nothing())->Ok_0;
    lemma_gathered_layout(root, children);
    lemma_laid_out(load.directories, f.directories);
    lemma_depth_order();
    lemma_sorted_same_items(load.directories, f.directories, depth_order());
    assert forall|p: Seq<u8>| #[trigger] load.directories.contains(p) == f.directories.contains(
        p,
    ) by {
        assert(load.directories.to_multiset().count(p) == f.directories.to_multiset().count(p));
    }
    assert forall|i: int| 0 <= i < load.directories.len() implies holds_way(
        load.directories,
        #[trigger] load.directories[i],
        parts(load.directories[i]).len() as int,
    ) by {
        let dir = load.directories[i];
        assert(load.directories.contains(dir));
        let j = choose|j: int| 0 <= j < f.directories.len() && f.directories[j] == dir;
        assert(holds_way(f.directories, f.directories[j], parts(dir).len() as int));
    }
}

} // verus!
