//! Slash separated paths as byte strings.

use vstd::prelude::*;

use crate::order::{
    bytes_before, bytes_lt, key_order, lemma_bytes_total, lemma_lex_decided, lemma_lex_decides,
    lemma_lex_total, lemma_sorted_map, lemma_sorted_same_items, lex_lt, sort, sorted_as, SortKey,
};
use crate::text::{lemma_split_at, lemma_split_whole, same_bytes, split};
use vstd::relations::*;
use vstd::utf8::encode_utf8;

verus! {

/// The separator of a path's components.
pub const SLASH: u8 = 47;

/// The byte that the names of the current and the parent directory are made of.
pub const DOT: u8 = 46;

/// A component of a path.
pub enum Part {
    RootDir,
    CurDir,
    ParentDir,
    Normal(Seq<u8>),
}

/// A path: any byte string.
#[derive(Debug)]
pub struct UnixPath {
    pub bytes: Vec<u8>,
}

impl View for UnixPath {
    type V = Seq<u8>;

    open spec fn view(&self) -> Seq<u8> {
        self.bytes@
    }
}

/// A component of a path, as a value.
#[derive(Debug)]
pub enum Component {
    RootDir,
    CurDir,
    ParentDir,
    Normal(Vec<u8>),
}

impl View for Component {
    type V = Part;

    open spec fn view(&self) -> Part {
        match self {
            Component::RootDir => Part::RootDir,
            Component::CurDir => Part::CurDir,
            Component::ParentDir => Part::ParentDir,
            Component::Normal(name) => Part::Normal(name@),
        }
    }
}

/// What one piece of a path between separators stands for. An empty piece stands for nothing,
/// and so does a single dot, unless it is the `lead` piece of the path.
pub open spec fn piece_part(piece: Seq<u8>, lead: bool) -> Option<Part> {
    if piece.len() == 0 {
        None
    } else if piece == seq![DOT] {
        if lead {
            Some(Part::CurDir)
        } else {
            None
        }
    } else if piece == seq![DOT, DOT] {
        Some(Part::ParentDir)
    } else {
        Some(Part::Normal(piece))
    }
}

pub open spec fn with_part(parts: Seq<Part>, part: Option<Part>) -> Seq<Part> {
    match part {
        Some(p) => parts.push(p),
        None => parts,
    }
}

/// What a run of pieces stands for, where the first of them is the `lead` piece or not.
pub open spec fn pieces_parts(pieces: Seq<Seq<u8>>, lead: bool) -> Seq<Part>
    decreases pieces.len(),
{
    if pieces.len() == 0 {
        Seq::empty()
    } else {
        with_part(
            pieces_parts(pieces.drop_last(), lead),
            piece_part(pieces.last(), lead && pieces.len() == 1),
        )
    }
}

/// Whether a path starts at the root.
pub open spec fn is_absolute(p: Seq<u8>) -> bool {
    p.len() > 0 && p[0] == SLASH
}

/// The component that says whether a path starts at the root.
pub open spec fn root_part(absolute: bool) -> Seq<Part> {
    if absolute {
        seq![Part::RootDir]
    } else {
        Seq::empty()
    }
}

/// The components of a path. Repeated separators, separators at the end, and single dots
/// anywhere but at the front are of no account.
pub open spec fn parts(p: Seq<u8>) -> Seq<Part> {
    root_part(is_absolute(p)) + pieces_parts(split(p, SLASH), true)
}

/// The components that `p` adds when it stands behind another path.
pub open spec fn inner_parts(p: Seq<u8>) -> Seq<Part> {
    pieces_parts(split(p, SLASH), false)
}

/// Whether a path leads nowhere but down from where it is applied.
pub open spec fn is_safe_relative(p: Seq<u8>) -> bool {
    &&& !is_absolute(p)
    &&& forall|i: int|
        0 <= i < parts(p).len() ==> #[trigger] parts(p)[i] != Part::ParentDir && parts(p)[i]
            != Part::RootDir
}

/// Whether the first `n` bytes of `p` are the shortest beginning of `p` with its first `k`
/// components.
pub open spec fn is_lead(p: Seq<u8>, k: int, n: int) -> bool {
    &&& 0 <= n <= p.len()
    &&& parts(p.take(n)) == parts(p).take(k)
    &&& forall|m: int| 0 <= m < n ==> parts(#[trigger] p.take(m)) != parts(p).take(k)
}

/// The shortest beginning of `p` with its first `k` components.
pub open spec fn lead(p: Seq<u8>, k: int) -> Seq<u8> {
    p.take(choose|n: int| is_lead(p, k, n))
}

/// The path without its last component; none where there is nothing to take off.
pub open spec fn parent(p: Seq<u8>) -> Option<Seq<u8>> {
    if parts(p).len() == 0 || parts(p).last() == Part::RootDir {
        None
    } else {
        Some(lead(p, parts(p).len() - 1))
    }
}

/// `rel` as seen from `base`.
pub open spec fn join(base: Seq<u8>, rel: Seq<u8>) -> Seq<u8> {
    if is_absolute(rel) {
        rel
    } else if base.len() == 0 || base.last() == SLASH {
        base + rel
    } else {
        base.push(SLASH) + rel
    }
}

proof fn lemma_split_nonempty(p: Seq<u8>)
    ensures
        split(p, SLASH).len() > 0,
    decreases p.len(),
{
    if p.len() > 0 {
        lemma_split_nonempty(p.drop_last());
    }
}

/// The components of `q` that do not depend on its last piece.
spec fn stem(q: Seq<u8>) -> Seq<Part> {
    root_part(is_absolute(q)) + pieces_parts(split(q, SLASH).drop_last(), true)
}

spec fn last_piece(q: Seq<u8>) -> Seq<u8> {
    split(q, SLASH).last()
}

spec fn one_piece(q: Seq<u8>) -> bool {
    split(q, SLASH).len() == 1
}

proof fn lemma_parts_stem(q: Seq<u8>)
    ensures
        parts(q) == with_part(stem(q), piece_part(last_piece(q), one_piece(q))),
{
    lemma_split_nonempty(q);
    assert(parts(q) =~= with_part(stem(q), piece_part(last_piece(q), one_piece(q))));
}

/// How the components change when a byte is added.
proof fn lemma_parts_push(q: Seq<u8>, b: u8)
    ensures
        b == SLASH && q.len() == 0 ==> parts(q.push(b)) == seq![Part::RootDir],
        b == SLASH && q.len() > 0 ==> parts(q.push(b)) == parts(q),
        b == SLASH ==> stem(q.push(b)) == parts(q.push(b)) && last_piece(q.push(b))
            == Seq::<u8>::empty() && !one_piece(q.push(b)),
        b != SLASH ==> {
            &&& stem(q.push(b)) == stem(q)
            &&& last_piece(q.push(b)) == last_piece(q).push(b)
            &&& one_piece(q.push(b)) == one_piece(q)
        },
{
    let r = q.push(b);
    lemma_split_nonempty(q);
    lemma_split_nonempty(r);
    assert(r.drop_last() =~= q);
    let before = split(q, SLASH);
    if b == SLASH {
        assert(split(r, SLASH).drop_last() =~= before);
        if q.len() == 0 {
            assert(before =~= seq![Seq::<u8>::empty()]);
            assert(before.drop_last() =~= Seq::empty());
            assert(pieces_parts(before.drop_last(), true) == Seq::<Part>::empty());
            assert(pieces_parts(before, true) == Seq::<Part>::empty());
            assert(parts(r) =~= seq![Part::RootDir]);
            assert(stem(r) =~= parts(r));
        }
    } else {
        assert(split(r, SLASH).drop_last() =~= before.drop_last());
    }
}

/// Adding a byte takes no component away.
proof fn lemma_count_step(q: Seq<u8>, b: u8)
    ensures
        parts(q).len() <= parts(q.push(b)).len(),
{
    lemma_parts_push(q, b);
    lemma_parts_stem(q);
    lemma_parts_stem(q.push(b));
    lemma_split_nonempty(q);
    if b == SLASH {
        if q.len() == 0 {
            assert(last_piece(q) =~= Seq::empty());
            assert(split(q, SLASH).drop_last() =~= Seq::empty());
        }
    } else {
        let x = last_piece(q);
        assert(x.push(b).len() == x.len() + 1);
    }
}

proof fn lemma_count_grows(p: Seq<u8>, m: int, n: int)
    requires
        0 <= m <= n <= p.len(),
    ensures
        parts(p.take(m)).len() <= parts(p.take(n)).len(),
    decreases n,
{
    if m < n {
        lemma_count_grows(p, m, n - 1);
        lemma_count_step(p.take(n - 1), p[n - 1]);
        assert(p.take(n - 1).push(p[n - 1]) =~= p.take(n));
    }
}

/// Behind a separator, and at the front, a new piece begins.
proof fn lemma_piece_start(p: Seq<u8>, start: int)
    requires
        0 <= start <= p.len(),
        start == 0 || p[start - 1] == SLASH,
    ensures
        last_piece(p.take(start)) == Seq::<u8>::empty(),
        one_piece(p.take(start)) == (start == 0),
        stem(p.take(start)) == parts(p.take(start)),
{
    let q = p.take(start);
    lemma_parts_stem(q);
    if start == 0 {
        assert(split(q, SLASH) =~= seq![Seq::<u8>::empty()]);
    } else {
        lemma_parts_push(p.take(start - 1), p[start - 1]);
        assert(p.take(start - 1).push(p[start - 1]) =~= q);
    }
}

/// Within a piece only the last component changes.
proof fn lemma_within_piece(p: Seq<u8>, start: int, i: int)
    requires
        0 <= start <= i <= p.len(),
        start == 0 || p[start - 1] == SLASH,
        forall|j: int| start <= j < i ==> p[j] != SLASH,
    ensures
        parts(p.take(i)) == with_part(
            parts(p.take(start)),
            piece_part(p.subrange(start, i), start == 0),
        ),
        stem(p.take(i)) == parts(p.take(start)),
        last_piece(p.take(i)) == p.subrange(start, i),
        one_piece(p.take(i)) == (start == 0),
    decreases i,
{
    lemma_piece_start(p, start);
    lemma_parts_stem(p.take(i));
    if start == i {
        assert(p.subrange(start, i) =~= Seq::empty());
    } else {
        lemma_within_piece(p, start, i - 1);
        lemma_parts_push(p.take(i - 1), p[i - 1]);
        assert(p.take(i - 1).push(p[i - 1]) =~= p.take(i));
        assert(p.subrange(start, i - 1).push(p[i - 1]) =~= p.subrange(start, i));
    }
}

proof fn lemma_piece_part_injective(x: Seq<u8>, y: Seq<u8>, lead: bool)
    requires
        piece_part(x, lead) is Some,
        piece_part(x, lead) == piece_part(y, lead),
    ensures
        x == y,
{
}

/// Whether `n` is where the first `k + 1` of the components `base` end in `p`.
spec fn is_end(p: Seq<u8>, base: Seq<Part>, k: int, n: int) -> bool {
    &&& 0 <= n <= p.len()
    &&& parts(p.take(n)) == base.take(k + 1)
    &&& forall|m: int| 0 <= m < n ==> parts(#[trigger] p.take(m)) != base.take(k + 1)
}

/// A piece that stands for a component ends it.
proof fn lemma_piece_end(p: Seq<u8>, start: int, i: int)
    requires
        0 <= start <= i <= p.len(),
        start == 0 || p[start - 1] == SLASH,
        forall|j: int| start <= j < i ==> p[j] != SLASH,
        piece_part(p.subrange(start, i), start == 0) is Some,
    ensures
        is_end(p, parts(p.take(i)), parts(p.take(start)).len() as int, i),
{
    let base = parts(p.take(start));
    let all = parts(p.take(i));
    lemma_within_piece(p, start, i);
    assert(all.take(base.len() as int + 1) =~= all);
    assert forall|m: int| 0 <= m < i implies parts(#[trigger] p.take(m)) != all by {
        if m <= start {
            lemma_count_grows(p, m, start);
        } else {
            lemma_within_piece(p, start, m);
            let part = piece_part(p.subrange(start, m), start == 0);
            if parts(p.take(m)) == all {
                assert(part is Some);
                assert(parts(p.take(m)).last() == part.unwrap());
                assert(all.last() == piece_part(p.subrange(start, i), start == 0).unwrap());
                lemma_piece_part_injective(p.subrange(start, m), p.subrange(start, i), start == 0);
                assert(p.subrange(start, m).len() == p.subrange(start, i).len());
            }
        }
    }
}

/// The components of a list.
pub open spec fn component_views(list: Seq<Component>) -> Seq<Part> {
    list.map_values(|c: Component| c@)
}

/// What the piece `bytes[from..to]` stands for.
fn piece_component(bytes: &Vec<u8>, from: usize, to: usize, lead: bool) -> (r: Option<Component>)
    requires
        from <= to <= bytes.len(),
    ensures
        match r {
            Some(c) => piece_part(bytes@.subrange(from as int, to as int), lead) == Some(c@),
            None => piece_part(bytes@.subrange(from as int, to as int), lead) is None,
        },
{
    let ghost piece = bytes@.subrange(from as int, to as int);
    if from == to {
        return None;
    }
    if to - from == 1 && bytes[from] == DOT {
        assert(piece =~= seq![DOT]);
        return if lead {
            Some(Component::CurDir)
        } else {
            None
        };
    }
    if to - from == 2 && bytes[from] == DOT && bytes[from + 1] == DOT {
        assert(piece =~= seq![DOT, DOT]);
        return Some(Component::ParentDir);
    }
    assert(piece != seq![DOT]) by {
        if piece == seq![DOT] {
            assert(piece[0] == DOT);
        }
    }
    assert(piece != seq![DOT, DOT]) by {
        if piece == seq![DOT, DOT] {
            assert(piece[0] == DOT && piece[1] == DOT);
        }
    }
    let name: Vec<u8> = vstd::slice::slice_to_vec(
        vstd::slice::slice_subrange(bytes.as_slice(), from, to),
    );
    assert(name@ =~= piece);
    Some(Component::Normal(name))
}

/// The components of `bytes`, and where each of them ends.
fn scan(bytes: &Vec<u8>) -> (r: (Vec<Component>, Vec<usize>))
    ensures
        component_views(r.0@) == parts(bytes@),
        r.0@.len() == r.1@.len(),
        forall|k: int| 0 <= k < r.1@.len() ==> is_lead(bytes@, k + 1, (#[trigger] r.1@[k]) as int),
{
    let ghost p = bytes@;
    let mut found: Vec<Component> = Vec::new();
    let mut ends: Vec<usize> = Vec::new();
    let mut start: usize = 0;
    let mut i: usize = 0;
    proof {
        assert(p.take(0) =~= Seq::empty());
        assert(split(p.take(0), SLASH) =~= seq![Seq::<u8>::empty()]);
        lemma_piece_start(p, 0);
        assert(stem(p.take(0)) =~= Seq::empty());
        assert(component_views(found@) =~= parts(p.take(0)));
    }
    while i < bytes.len()
        invariant
            p == bytes@,
            start <= i <= bytes.len(),
            start == 0 || p[start - 1] == SLASH,
            forall|j: int| start <= j < i ==> p[j] != SLASH,
            component_views(found@) == parts(p.take(start as int)),
            found@.len() == ends@.len(),
            forall|k: int|
                0 <= k < ends@.len() ==> is_end(
                    p,
                    parts(p.take(start as int)),
                    k,
                    (#[trigger] ends@[k]) as int,
                ),
        decreases bytes.len() - i,
    {
        if bytes[i] == SLASH {
            let ghost base = parts(p.take(start as int));
            proof {
                lemma_parts_push(p.take(i as int), p[i as int]);
                assert(p.take(i as int).push(p[i as int]) =~= p.take(i + 1));
                lemma_within_piece(p, start as int, i as int);
            }
            if i == 0 {
                found.push(Component::RootDir);
                ends.push(1);
                proof {
                    assert(base =~= Seq::empty());
                    assert(component_views(found@) =~= seq![Part::RootDir]);
                    assert(seq![Part::RootDir].take(1) =~= seq![Part::RootDir]);
                    assert forall|m: int| 0 <= m < 1 implies parts(#[trigger] p.take(m)) != seq![
                        Part::RootDir,
                    ] by {
                        assert(parts(p.take(0)).len() == 0);
                    }
                }
            } else {
                close_piece(bytes, start, i, &mut found, &mut ends);
            }
            start = i + 1;
        }
        i += 1;
    }
    proof {
        assert(p.take(i as int) =~= p);
    }
    close_piece(bytes, start, i, &mut found, &mut ends);
    (found, ends)
}

/// Adds the component of the piece `bytes[start..i]`, where it stands for one, and its end.
fn close_piece(
    bytes: &Vec<u8>,
    start: usize,
    i: usize,
    found: &mut Vec<Component>,
    ends: &mut Vec<usize>,
)
    requires
        start <= i <= bytes.len(),
        start == 0 || bytes@[start - 1] == SLASH,
        forall|j: int| start <= j < i ==> bytes@[j] != SLASH,
        component_views(old(found)@) == parts(bytes@.take(start as int)),
        old(found)@.len() == old(ends)@.len(),
        forall|k: int|
            0 <= k < old(ends)@.len() ==> is_end(
                bytes@,
                parts(bytes@.take(start as int)),
                k,
                (#[trigger] old(ends)@[k]) as int,
            ),
    ensures
        component_views(final(found)@) == parts(bytes@.take(i as int)),
        final(found)@.len() == final(ends)@.len(),
        forall|k: int|
            0 <= k < final(ends)@.len() ==> is_end(
                bytes@,
                parts(bytes@.take(i as int)),
                k,
                (#[trigger] final(ends)@[k]) as int,
            ),
{
    let ghost p = bytes@;
    let ghost base = parts(p.take(start as int));
    let ghost found0 = found@;
    let ghost ends0 = ends@;
    proof {
        lemma_within_piece(p, start as int, i as int);
        assert(base.len() == found0.len());
    }
    if let Some(c) = piece_component(bytes, start, i, start == 0) {
        found.push(c);
        ends.push(i);
        proof {
            let all = parts(p.take(i as int));
            lemma_piece_end(p, start as int, i as int);
            assert(component_views(found@) =~= component_views(found0).push(c@));
            assert forall|k: int| 0 <= k < ends@.len() implies is_end(
                p,
                all,
                k,
                (#[trigger] ends@[k]) as int,
            ) by {
                if k < ends0.len() {
                    assert(is_end(p, base, k, ends0[k] as int));
                    assert(all.take(k + 1) =~= base.take(k + 1));
                }
            }
        }
    }
}

proof fn lemma_lead_unique(p: Seq<u8>, k: int, n: int)
    requires
        is_lead(p, k, n),
    ensures
        lead(p, k) == p.take(n),
{
    let c = choose|n: int| is_lead(p, k, n);
    assert(is_lead(p, k, c));
    if c < n {
        assert(parts(p.take(c)) != parts(p).take(k));
    } else if n < c {
        assert(parts(p.take(n)) != parts(p).take(k));
    }
}

/// Some beginning of `p` has its first `k` components.
proof fn lemma_some_lead(p: Seq<u8>, k: int) -> (n: int)
    requires
        0 <= k <= parts(p).len(),
    ensures
        0 <= n <= p.len(),
        parts(p.take(n)) == parts(p).take(k),
    decreases p.len(),
{
    if k == parts(p).len() {
        assert(p.take(p.len() as int) =~= p);
        assert(parts(p).take(k) =~= parts(p));
        p.len() as int
    } else if p.len() == 0 {
        lemma_piece_start(p, 0);
        assert(p.take(0) =~= p);
        assert(stem(p) =~= Seq::empty());
        0
    } else {
        let q = p.drop_last();
        let b = p.last();
        assert(q.push(b) =~= p);
        lemma_parts_push(q, b);
        lemma_parts_stem(q);
        lemma_parts_stem(p);
        lemma_count_step(q, b);
        if b == SLASH && q.len() == 0 {
            lemma_piece_start(p, 0);
            assert(p.take(0) =~= Seq::empty());
            assert(stem(p.take(0)) =~= Seq::empty());
            assert(parts(p).take(0) =~= Seq::empty());
            0
        } else {
            assert(parts(p).take(k) =~= parts(q).take(k));
            let n = lemma_some_lead(q, k);
            assert(p.take(n) =~= q.take(n));
            n
        }
    }
}

proof fn lemma_least_lead(p: Seq<u8>, k: int, n: int) -> (m: int)
    requires
        0 <= n <= p.len(),
        parts(p.take(n)) == parts(p).take(k),
    ensures
        is_lead(p, k, m),
    decreases n,
{
    if exists|m: int| 0 <= m < n && parts(#[trigger] p.take(m)) == parts(p).take(k) {
        let m = choose|m: int| 0 <= m < n && parts(#[trigger] p.take(m)) == parts(p).take(k);
        lemma_least_lead(p, k, m)
    } else {
        n
    }
}

/// The path of the first `k` components has these components, and is a beginning of the path.
pub proof fn lemma_lead_parts(p: Seq<u8>, k: int)
    requires
        0 <= k <= parts(p).len(),
    ensures
        parts(lead(p, k)) == parts(p).take(k),
        lead(p, k).is_prefix_of(p),
{
    let n = lemma_some_lead(p, k);
    let m = lemma_least_lead(p, k, n);
    lemma_lead_unique(p, k, m);
}

/// A path's parent has the path's components but the last.
pub proof fn lemma_parent_parts(p: Seq<u8>)
    ensures
        parent(p) matches Some(q) ==> parts(q) == parts(p).drop_last(),
{
    if parent(p) is Some {
        lemma_lead_parts(p, parts(p).len() - 1);
        assert(parts(p).take(parts(p).len() - 1) =~= parts(p).drop_last());
    }
}

/// The path of the first `k` components of the path of more is that of the first `k`.
pub(crate) proof fn lemma_lead_of_lead(p: Seq<u8>, j: int, k: int)
    requires
        0 <= k <= j <= parts(p).len(),
    ensures
        lead(lead(p, j), k) == lead(p, k),
{
    let some_n = lemma_some_lead(p, j);
    let n = lemma_least_lead(p, j, some_n);
    lemma_lead_unique(p, j, n);
    let some_m = lemma_some_lead(p, k);
    let m = lemma_least_lead(p, k, some_m);
    lemma_lead_unique(p, k, m);
    let q = p.take(n);
    if m > n {
        lemma_count_grows(p, n, m);
    }
    assert(parts(q).take(k) =~= parts(p).take(k));
    assert(q.take(m) =~= p.take(m));
    assert forall|i: int| 0 <= i < m implies parts(#[trigger] q.take(i)) != parts(q).take(k) by {
        assert(q.take(i) =~= p.take(i));
        assert(parts(p.take(i)) != parts(p).take(k));
    }
    lemma_lead_unique(q, k, m);
}

/// Taking the last component off the path of the first `k` components gives the path of the
/// first `k - 1`.
pub proof fn lemma_parent_of_lead(p: Seq<u8>, k: int)
    requires
        0 < k <= parts(p).len(),
        parts(p)[k - 1] != Part::RootDir,
    ensures
        parent(lead(p, k)) == Some(lead(p, k - 1)),
{
    lemma_lead_parts(p, k);
    lemma_lead_of_lead(p, k, k - 1);
}

proof fn lemma_pieces_append(xs: Seq<Seq<u8>>, ys: Seq<Seq<u8>>, lead: bool)
    requires
        xs.len() > 0,
    ensures
        pieces_parts(xs + ys, lead) == pieces_parts(xs, lead) + pieces_parts(ys, false),
    decreases ys.len(),
{
    if ys.len() == 0 {
        assert(xs + ys =~= xs);
        assert(pieces_parts(xs, lead) + pieces_parts(ys, false) =~= pieces_parts(xs, lead));
    } else {
        lemma_pieces_append(xs, ys.drop_last(), lead);
        assert((xs + ys).drop_last() =~= xs + ys.drop_last());
        assert(pieces_parts(xs + ys, lead) =~= pieces_parts(xs, lead) + pieces_parts(ys, false));
    }
}

/// Behind a path that is not empty, a relative path adds its components to those of the path.
pub proof fn lemma_join_parts(base: Seq<u8>, rel: Seq<u8>)
    requires
        base.len() > 0,
        !is_absolute(rel),
    ensures
        parts(join(base, rel)) == parts(base) + inner_parts(rel),
{
    let whole = join(base, rel);
    if base.last() == SLASH {
        let a = base.drop_last();
        assert(a.push(SLASH) =~= base);
        assert(a.push(SLASH) + Seq::<u8>::empty() =~= base);
        lemma_split_at(a, rel, SLASH);
        lemma_split_at(a, Seq::empty(), SLASH);
        lemma_split_nonempty(a);
        lemma_pieces_append(split(a, SLASH), split(rel, SLASH), true);
        let nothing = Seq::<u8>::empty();
        assert(split(nothing, SLASH) =~= seq![nothing]);
        lemma_pieces_append(split(a, SLASH), split(nothing, SLASH), true);
        assert(seq![nothing].drop_last() =~= Seq::empty());
        assert(pieces_parts(Seq::<Seq<u8>>::empty(), false) == Seq::<Part>::empty());
        assert(pieces_parts(seq![nothing], false) == Seq::<Part>::empty());
        assert(parts(whole) =~= parts(base) + inner_parts(rel));
    } else {
        lemma_split_at(base, rel, SLASH);
        lemma_split_nonempty(base);
        lemma_pieces_append(split(base, SLASH), split(rel, SLASH), true);
        assert(parts(whole) =~= parts(base) + inner_parts(rel));
    }
}

proof fn lemma_pieces_lead(pieces: Seq<Seq<u8>>)
    requires
        pieces.len() > 0,
    ensures
        pieces_parts(pieces, true) == if pieces[0] == seq![DOT] {
            seq![Part::CurDir] + pieces_parts(pieces, false)
        } else {
            pieces_parts(pieces, false)
        },
    decreases pieces.len(),
{
    if pieces.len() > 1 {
        lemma_pieces_lead(pieces.drop_last());
        assert(pieces_parts(pieces, true) =~= if pieces[0] == seq![DOT] {
            seq![Part::CurDir] + pieces_parts(pieces, false)
        } else {
            pieces_parts(pieces, false)
        });
    } else {
        assert(pieces.drop_last() =~= Seq::empty());
        assert(pieces_parts(pieces.drop_last(), true) == Seq::<Part>::empty());
        assert(pieces_parts(pieces.drop_last(), false) == Seq::<Part>::empty());
        assert(pieces[0] == pieces.last());
        assert(pieces_parts(pieces, true) =~= if pieces[0] == seq![DOT] {
            seq![Part::CurDir] + pieces_parts(pieces, false)
        } else {
            pieces_parts(pieces, false)
        });
    }
}

/// No component behind the first is the current directory.
proof fn lemma_no_inner_dot(pieces: Seq<Seq<u8>>)
    ensures
        forall|i: int|
            0 <= i < pieces_parts(pieces, false).len() ==> #[trigger] pieces_parts(pieces, false)[i]
                != Part::CurDir && pieces_parts(pieces, false)[i] != Part::RootDir,
    decreases pieces.len(),
{
    if pieces.len() > 0 {
        lemma_no_inner_dot(pieces.drop_last());
    }
}

/// What a relative path adds behind another is what it has by itself, but for a dot in front.
pub proof fn lemma_inner_parts(p: Seq<u8>)
    requires
        !is_absolute(p),
    ensures
        inner_parts(p) == if parts(p).len() > 0 && parts(p)[0] == Part::CurDir {
            parts(p).skip(1)
        } else {
            parts(p)
        },
        forall|i: int|
            0 <= i < inner_parts(p).len() ==> #[trigger] inner_parts(p)[i] != Part::CurDir
                && inner_parts(p)[i] != Part::RootDir,
{
    lemma_split_nonempty(p);
    lemma_pieces_lead(split(p, SLASH));
    lemma_no_inner_dot(split(p, SLASH));
    assert(parts(p) =~= pieces_parts(split(p, SLASH), true));
    assert((seq![Part::CurDir] + inner_parts(p)).skip(1) =~= inner_parts(p));
}

/// Whether `n` can be the name of a directory entry.
pub open spec fn is_name(n: Seq<u8>) -> bool {
    &&& n.len() > 0
    &&& !n.contains(SLASH)
    &&& n != seq![DOT]
    &&& n != seq![DOT, DOT]
}

/// The empty path has no components.
pub(crate) proof fn lemma_no_parts()
    ensures
        parts(Seq::empty()) == Seq::<Part>::empty(),
{
    let p = Seq::<u8>::empty();
    lemma_piece_start(p, 0);
    assert(p.take(0) =~= p);
    assert(stem(p) =~= Seq::empty());
}

/// An entry of a directory has the directory's components and its name.
pub proof fn lemma_child_parts(dir: Seq<u8>, name: Seq<u8>)
    requires
        is_name(name),
    ensures
        parts(join(dir, name)) == parts(dir).push(Part::Normal(name)),
        join(dir, name).len() > 0,
{
    lemma_split_whole(name, SLASH);
    let pieces = seq![name];
    assert(pieces.drop_last() =~= Seq::empty());
    assert(pieces_parts(pieces.drop_last(), true) == Seq::<Part>::empty());
    assert(pieces_parts(pieces.drop_last(), false) == Seq::<Part>::empty());
    assert(pieces.last() == name);
    assert(pieces_parts(pieces, true) =~= seq![Part::Normal(name)]);
    assert(pieces_parts(pieces, false) =~= seq![Part::Normal(name)]);
    assert(!is_absolute(name)) by {
        assert(name[0] == SLASH ==> name.contains(SLASH));
    }
    if dir.len() == 0 {
        assert(join(dir, name) =~= name);
        lemma_piece_start(dir, 0);
        assert(dir.take(0) =~= dir);
        assert(stem(dir) =~= Seq::empty());
        assert(parts(name) =~= parts(dir).push(Part::Normal(name)));
    } else {
        lemma_join_parts(dir, name);
        assert(parts(dir) + seq![Part::Normal(name)] =~= parts(dir).push(Part::Normal(name)));
    }
}

/// Whether no shorter beginning of `p` has its components.
pub open spec fn is_tidy(p: Seq<u8>) -> bool {
    lead(p, parts(p).len() as int) == p
}

/// An entry of a tidy directory has a tidy path, and the directory is what its path begins with.
pub(crate) proof fn lemma_child_tidy(dir: Seq<u8>, name: Seq<u8>)
    requires
        is_name(name),
        is_tidy(dir),
    ensures
        is_tidy(join(dir, name)),
        lead(join(dir, name), parts(dir).len() as int) == dir,
{
    let p = join(dir, name);
    let n = parts(dir).len() as int;
    let start = p.len() - name.len();
    lemma_child_parts(dir, name);
    assert(!is_absolute(name)) by {
        assert(name[0] == SLASH ==> name.contains(SLASH));
    }
    assert(p.skip(start) =~= name);
    assert(p.take(dir.len() as int) =~= dir);
    assert(parts(p).take(n) =~= parts(dir));
    let some_c = lemma_some_lead(dir, n);
    let c = lemma_least_lead(dir, n, some_c);
    lemma_lead_unique(dir, n, c);
    assert(c == dir.len());
    assert(parts(dir).take(n) =~= parts(dir));
    assert forall|m: int| 0 <= m < dir.len() implies parts(#[trigger] p.take(m)) != parts(p).take(
        n,
    ) by {
        assert(p.take(m) =~= dir.take(m));
        assert(parts(dir.take(m)) != parts(dir).take(n));
    }
    lemma_lead_unique(p, n, dir.len() as int);
    assert forall|m: int| 0 <= m < p.len() implies parts(#[trigger] p.take(m)) != parts(p).take(
        n + 1,
    ) by {
        assert(parts(p).take(n + 1) =~= parts(p));
        assert forall|j: int| start <= j < p.len() implies p[j] != SLASH by {
            assert(p[j] == name[j - start]);
            assert(name.contains(name[j - start]));
        }
        lemma_within_piece(p, start, p.len() as int);
        assert(p.subrange(start, p.len() as int) =~= name);
        assert(p.take(p.len() as int) =~= p);
        assert(piece_part(name, start == 0) == Some(Part::Normal(name)));
        assert(parts(p.take(start)).len() == n);
        if m < start {
            lemma_count_grows(p, m, start);
        } else {
            lemma_within_piece(p, start, m);
            let piece = p.subrange(start, m);
            assert(piece.len() < name.len());
            if parts(p.take(m)) == parts(p) {
                assert(parts(p).last() == Part::Normal(name));
                assert(piece_part(piece, start == 0) == Some(Part::Normal(name)));
                lemma_piece_part_injective(name, piece, start == 0);
            }
        }
    }
    assert(parts(p.take(p.len() as int)) == parts(p).take(n + 1)) by {
        assert(p.take(p.len() as int) =~= p);
        assert(parts(p).take(n + 1) =~= parts(p));
    }
    lemma_lead_unique(p, n + 1, p.len() as int);
    assert(p.take(p.len() as int) =~= p);
}

/// Where the kinds of component stand in their order.
pub open spec fn rank(part: Part) -> int {
    match part {
        Part::RootDir => 0,
        Part::CurDir => 1,
        Part::ParentDir => 2,
        Part::Normal(_) => 3,
    }
}

/// The order of components: by kind, and names by their bytes.
pub open spec fn part_lt(a: Part, b: Part) -> bool {
    match (a, b) {
        (Part::Normal(x), Part::Normal(y)) => bytes_lt(x, y),
        _ => rank(a) < rank(b),
    }
}

/// The order of paths: component by component.
pub open spec fn parts_lt(a: Seq<Part>, b: Seq<Part>) -> bool {
    lex_lt(a, b, |x: Part, y: Part| part_lt(x, y))
}

/// Whether `a` may stand ahead of `b` in a list of directories: the one with fewer components
/// first, and among equals the order of paths.
pub open spec fn shallow_first(a: Seq<u8>, b: Seq<u8>) -> bool {
    ||| parts(a).len() < parts(b).len()
    ||| parts(a).len() == parts(b).len() && !parts_lt(parts(b), parts(a))
}

proof fn lemma_parts_total()
    ensures
        strict_total_ordering(|a: Seq<Part>, b: Seq<Part>| parts_lt(a, b)),
{
    let less = |a: Seq<u8>, b: Seq<u8>| bytes_lt(a, b);
    let lt = |x: Part, y: Part| part_lt(x, y);
    lemma_bytes_total();
    assert forall|x: Part| #[trigger] lt(x, x) == false by {
        if let Part::Normal(n) = x {
            assert(!less(n, n));
        }
    }
    assert forall|x: Part, y: Part, z: Part| #[trigger] lt(x, y) && #[trigger] lt(y, z) implies lt(
        x,
        z,
    ) by {
        if let (Part::Normal(a), Part::Normal(b), Part::Normal(c)) = (x, y, z) {
            assert(less(a, b) && less(b, c));
            assert(less(a, c));
        }
    }
    assert forall|x: Part, y: Part| x != y implies #[trigger] lt(x, y) || #[trigger] lt(y, x) by {
        if let (Part::Normal(a), Part::Normal(b)) = (x, y) {
            assert(less(a, b) || less(b, a));
        }
    }
    assert forall|x: Part, y: Part| #[trigger] lt(x, y) && #[trigger] lt(y, x) implies x == y by {
        if let (Part::Normal(a), Part::Normal(b)) = (x, y) {
            assert(less(a, b) && less(b, a));
        }
    }
    lemma_lex_total(lt);
    let r = |a: Seq<Part>, b: Seq<Part>| lex_lt(a, b, lt);
    let q = |a: Seq<Part>, b: Seq<Part>| parts_lt(a, b);
    assert forall|a: Seq<Part>, b: Seq<Part>| #[trigger] q(a, b) == r(a, b) by {}
    assert(q =~= r);
}

/// Paths that may each stand ahead of the other have the same components.
pub(crate) proof fn lemma_same_place(a: Seq<u8>, b: Seq<u8>)
    requires
        shallow_first(a, b),
        shallow_first(b, a),
    ensures
        parts(a) == parts(b),
{
    lemma_parts_total();
    let q = |a: Seq<Part>, b: Seq<Part>| parts_lt(a, b);
    if parts(a) != parts(b) {
        assert(q(parts(a), parts(b)) || q(parts(b), parts(a)));
    }
}

/// Whether two components are the same.
fn same_component(a: &Component, b: &Component) -> (r: bool)
    ensures
        r == (a@ == b@),
{
    match (a, b) {
        (Component::RootDir, Component::RootDir) => true,
        (Component::CurDir, Component::CurDir) => true,
        (Component::ParentDir, Component::ParentDir) => true,
        (Component::Normal(x), Component::Normal(y)) => same_bytes(x.as_slice(), y.as_slice()),
        _ => false,
    }
}

/// Where the kind of a component stands in the order of kinds.
fn kind_rank(c: &Component) -> (r: u8)
    ensures
        r == rank(c@),
{
    match c {
        Component::RootDir => 0,
        Component::CurDir => 1,
        Component::ParentDir => 2,
        Component::Normal(_) => 3,
    }
}

/// Whether the component `a` comes before `b`.
fn component_before(a: &Component, b: &Component) -> (r: bool)
    ensures
        r == part_lt(a@, b@),
{
    match (a, b) {
        (Component::Normal(x), Component::Normal(y)) => bytes_before(x.as_slice(), y.as_slice()),
        _ => kind_rank(a) < kind_rank(b),
    }
}

/// Whether two lists hold the same components.
fn same_components(a: &Vec<Component>, b: &Vec<Component>) -> (r: bool)
    ensures
        r == (component_views(a@) == component_views(b@)),
{
    let ghost x = component_views(a@);
    let ghost y = component_views(b@);
    if a.len() != b.len() {
        assert(x.len() != y.len());
        return false;
    }
    let mut i: usize = 0;
    while i < a.len()
        invariant
            a.len() == b.len(),
            i <= a.len(),
            x == component_views(a@),
            y == component_views(b@),
            forall|k: int| 0 <= k < i ==> x[k] == y[k],
        decreases a.len() - i,
    {
        if !same_component(&a[i], &b[i]) {
            assert(x[i as int] != y[i as int]);
            return false;
        }
        i += 1;
    }
    assert(x =~= y);
    true
}

/// Whether the components `a` come before the components `b`.
fn components_before(a: &Vec<Component>, b: &Vec<Component>) -> (r: bool)
    ensures
        r == parts_lt(component_views(a@), component_views(b@)),
{
    let ghost x = component_views(a@);
    let ghost y = component_views(b@);
    let mut i: usize = 0;
    assert(x.skip(0) =~= x);
    assert(y.skip(0) =~= y);
    while i < a.len() && i < b.len()
        invariant
            i <= a.len(),
            i <= b.len(),
            x == component_views(a@),
            y == component_views(b@),
            parts_lt(x, y) == parts_lt(x.skip(i as int), y.skip(i as int)),
        decreases a.len() - i,
    {
        assert(x.skip(i as int)[0] == a[i as int]@);
        assert(y.skip(i as int)[0] == b[i as int]@);
        if !same_component(&a[i], &b[i]) {
            return component_before(&a[i], &b[i]);
        }
        assert(x.skip(i as int).drop_first() =~= x.skip(i + 1));
        assert(y.skip(i as int).drop_first() =~= y.skip(i + 1));
        i += 1;
    }
    i < b.len()
}

impl SortKey for UnixPath {
    open spec fn precedes(self, other: Self) -> bool {
        shallow_first(self@, other@)
    }

    proof fn precedes_total(a: Self, b: Self) {
        lemma_depth_order();
        let leq = depth_order();
        assert(leq(a@, b@) || leq(b@, a@));
    }

    proof fn precedes_transitive(a: Self, b: Self, c: Self) {
        lemma_depth_order();
        let leq = depth_order();
        assert(leq(a@, b@) && leq(b@, c@));
        assert(leq(a@, c@));
    }

    fn at_most(&self, other: &Self) -> (r: bool) {
        let a: Vec<Component> = self.components();
        let b: Vec<Component> = other.components();
        assert(component_views(a@).len() == a@.len());
        assert(component_views(b@).len() == b@.len());
        a.len() < b.len() || (a.len() == b.len() && !components_before(&b, &a))
    }
}

impl Clone for UnixPath {
    fn clone(&self) -> (r: Self)
        ensures
            r@ == self@,
    {
        UnixPath { bytes: vstd::slice::slice_to_vec(self.bytes.as_slice()) }
    }
}

impl UnixPath {
    /// The path that a text names.
    pub fn from_text(text: &str) -> (r: UnixPath)
        ensures
            r@ == encode_utf8(text@),
    {
        UnixPath { bytes: vstd::slice::slice_to_vec(text.as_bytes()) }
    }

    /// The components of the path.
    pub fn components(&self) -> (r: Vec<Component>)
        ensures
            component_views(r@) == parts(self@),
    {
        scan(&self.bytes).0
    }

    /// Whether the path starts at the root.
    pub fn absolute(&self) -> (r: bool)
        ensures
            r == is_absolute(self@),
    {
        self.bytes.len() > 0 && self.bytes[0] == SLASH
    }

    /// Whether the path leads nowhere but down from where it is applied.
    pub fn safe_relative(&self) -> (r: bool)
        ensures
            r == is_safe_relative(self@),
    {
        if self.absolute() {
            return false;
        }
        let found: Vec<Component> = self.components();
        let ghost all = parts(self@);
        assert(all.len() == found@.len());
        let mut i: usize = 0;
        while i < found.len()
            invariant
                all == parts(self@),
                all == component_views(found@),
                i <= found.len(),
                forall|k: int|
                    0 <= k < i ==> #[trigger] all[k] != Part::ParentDir && all[k] != Part::RootDir,
            decreases found.len() - i,
        {
            assert(all[i as int] == found[i as int]@);
            match found[i] {
                Component::ParentDir => {
                    return false;
                },
                Component::RootDir => {
                    return false;
                },
                _ => {},
            }
            i += 1;
        }
        true
    }

    /// Whether two paths have the same components.
    pub fn same_place(&self, other: &UnixPath) -> (r: bool)
        ensures
            r == (parts(self@) == parts(other@)),
    {
        same_components(&self.components(), &other.components())
    }

    /// The first `n` bytes of the path.
    fn beginning(&self, n: usize) -> (r: UnixPath)
        requires
            n <= self@.len(),
        ensures
            r@ == self@.take(n as int),
    {
        let bytes: Vec<u8> = vstd::slice::slice_to_vec(
            vstd::slice::slice_subrange(self.bytes.as_slice(), 0, n),
        );
        assert(bytes@ =~= self@.take(n as int));
        UnixPath { bytes }
    }

    /// The path without its last component.
    pub fn parent(&self) -> (r: Option<UnixPath>)
        ensures
            match r {
                Some(q) => parent(self@) == Some(q@),
                None => parent(self@) is None,
            },
    {
        let (found, ends) = scan(&self.bytes);
        let ghost all = parts(self@);
        assert(all.len() == found@.len());
        if found.len() == 0 {
            return None;
        }
        assert(all.last() == found@.last()@);
        if let Component::RootDir = found[found.len() - 1] {
            return None;
        }
        if found.len() == 1 {
            proof {
                assert(self@.take(0) =~= Seq::empty());
                lemma_piece_start(self@, 0);
                assert(stem(self@.take(0)) =~= Seq::empty());
                assert(all.take(0) =~= Seq::empty());
                assert(is_lead(self@, 0, 0));
                lemma_lead_unique(self@, 0, 0);
            }
            return Some(self.beginning(0));
        }
        let end: usize = ends[found.len() - 2];
        proof {
            let k = found@.len() - 2;
            assert(is_lead(self@, k + 1, ends@[k] as int));
            lemma_lead_unique(self@, k + 1, end as int);
        }
        Some(self.beginning(end))
    }

    /// The directories above what a relative path names, the innermost first.
    pub fn ancestors(&self) -> (r: Vec<UnixPath>)
        ensures
            r@.len() == if parts(self@).len() == 0 {
                0
            } else {
                parts(self@).len() - 1
            },
            forall|i: int|
                0 <= i < r@.len() ==> (#[trigger] r@[i])@ == lead(
                    self@,
                    parts(self@).len() - 1 - i,
                ),
    {
        let (found, ends) = scan(&self.bytes);
        let ghost all = parts(self@);
        assert(all.len() == found@.len());
        let mut out: Vec<UnixPath> = Vec::new();
        let mut left: usize = if ends.len() == 0 {
            0
        } else {
            ends.len() - 1
        };
        while left > 0
            invariant
                all == parts(self@),
                all.len() == ends@.len(),
                left + out@.len() == if all.len() == 0 {
                    0
                } else {
                    all.len() - 1
                },
                forall|k: int|
                    0 <= k < ends@.len() ==> is_lead(self@, k + 1, (#[trigger] ends@[k]) as int),
                forall|i: int|
                    0 <= i < out@.len() ==> (#[trigger] out@[i])@ == lead(
                        self@,
                        all.len() - 1 - i,
                    ),
            decreases left,
        {
            let end: usize = ends[left - 1];
            proof {
                let k = left - 1;
                assert(is_lead(self@, k + 1, ends@[k] as int));
                lemma_lead_unique(self@, k + 1, end as int);
            }
            out.push(self.beginning(end));
            left -= 1;
        }
        out
    }

    /// `rel` as seen from this path.
    pub fn join(&self, rel: &UnixPath) -> (r: UnixPath)
        ensures
            r@ == join(self@, rel@),
    {
        if rel.absolute() {
            return rel.clone();
        }
        let mut bytes: Vec<u8> = vstd::slice::slice_to_vec(self.bytes.as_slice());
        if bytes.len() > 0 && bytes[bytes.len() - 1] != SLASH {
            bytes.push(SLASH);
        }
        let mut tail: Vec<u8> = vstd::slice::slice_to_vec(rel.bytes.as_slice());
        bytes.append(&mut tail);
        UnixPath { bytes }
    }
}

/// The bytes of each path of a list.
pub open spec fn path_views(list: Seq<UnixPath>) -> Seq<Seq<u8>> {
    list.map_values(|p: UnixPath| p@)
}

/// The order of a list of directories.
pub open spec fn depth_order() -> spec_fn(Seq<u8>, Seq<u8>) -> bool {
    |a: Seq<u8>, b: Seq<u8>| shallow_first(a, b)
}

/// The order of a list of directories leaves no two paths unordered.
pub(crate) proof fn lemma_depth_order()
    ensures
        reflexive(depth_order()),
        transitive(depth_order()),
        strongly_connected(depth_order()),
{
    let leq = depth_order();
    lemma_parts_total();
    let q = |a: Seq<Part>, b: Seq<Part>| parts_lt(a, b);
    assert forall|a: Seq<u8>, b: Seq<u8>| #[trigger] leq(a, b) || #[trigger] leq(b, a) by {
        if q(parts(a), parts(b)) && q(parts(b), parts(a)) {
            assert(parts(a) == parts(b));
            assert(!q(parts(a), parts(a)));
        }
    }
    assert forall|a: Seq<u8>| #[trigger] leq(a, a) by {
        assert(!q(parts(a), parts(a)));
    }
    assert forall|a: Seq<u8>, b: Seq<u8>, c: Seq<u8>| #[trigger] leq(a, b) && #[trigger] leq(
        b,
        c,
    ) implies leq(a, c) by {
        let x = parts(a);
        let y = parts(b);
        let z = parts(c);
        if x.len() == y.len() && y.len() == z.len() && q(z, x) {
            if x != y {
                assert(q(x, y) || q(y, x));
                assert(q(z, y));
            }
        }
    }
}

/// `list` as a list of directories is laid out.
pub fn sort_paths(list: Vec<UnixPath>) -> (r: Vec<UnixPath>)
    ensures
        sorted_as(path_views(r@), path_views(list@), depth_order()),
{
    let r: Vec<UnixPath> = sort(list);
    proof {
        let f = |p: UnixPath| p@;
        lemma_depth_order();
        let below = key_order::<UnixPath>();
        let leq = depth_order();
        assert forall|a: UnixPath, b: UnixPath| #[trigger] below(a, b) == leq(f(a), f(b)) by {}
        lemma_sorted_map(r@, list@, f, below, leq);
    }
    r
}

/// The name of a directory entry.
#[derive(Debug)]
pub struct FileName {
    pub bytes: Vec<u8>,
}

impl View for FileName {
    type V = Seq<u8>;

    open spec fn view(&self) -> Seq<u8> {
        self.bytes@
    }
}

/// The bytes of each name of a list.
pub open spec fn name_views(list: Seq<FileName>) -> Seq<Seq<u8>> {
    list.map_values(|n: FileName| n@)
}

/// The order of names: by their bytes.
pub open spec fn name_order() -> spec_fn(Seq<u8>, Seq<u8>) -> bool {
    |a: Seq<u8>, b: Seq<u8>| !bytes_lt(b, a)
}

/// The names `s` from the first to the last in the order of names.
pub open spec fn sorted_names(s: Seq<Seq<u8>>) -> Seq<Seq<u8>> {
    s.sort_by(name_order())
}

/// Names are totally ordered.
pub(crate) proof fn lemma_name_order()
    ensures
        total_ordering(name_order()),
{
    let leq = name_order();
    lemma_bytes_total();
    let less = |a: Seq<u8>, b: Seq<u8>| bytes_lt(a, b);
    assert forall|a: Seq<u8>| #[trigger] leq(a, a) by {
        assert(!less(a, a));
    }
    assert forall|a: Seq<u8>, b: Seq<u8>| #[trigger] leq(a, b) && #[trigger] leq(
        b,
        a,
    ) implies a == b by {
        if a != b {
            assert(less(a, b) || less(b, a));
        }
    }
    assert forall|a: Seq<u8>, b: Seq<u8>| #[trigger] leq(a, b) || #[trigger] leq(b, a) by {
        if less(a, b) && less(b, a) {
            assert(a == b);
            assert(!less(a, a));
        }
    }
    assert forall|a: Seq<u8>, b: Seq<u8>, c: Seq<u8>| #[trigger] leq(a, b) && #[trigger] leq(
        b,
        c,
    ) implies leq(a, c) by {
        if less(c, a) {
            if a != b {
                assert(less(a, b) || less(b, a));
                assert(less(c, b));
            }
        }
    }
}

impl SortKey for FileName {
    open spec fn precedes(self, other: Self) -> bool {
        !bytes_lt(other@, self@)
    }

    proof fn precedes_total(a: Self, b: Self) {
        lemma_name_order();
        let leq = name_order();
        assert(leq(a@, b@) || leq(b@, a@));
    }

    proof fn precedes_transitive(a: Self, b: Self, c: Self) {
        lemma_name_order();
        let leq = name_order();
        assert(leq(a@, b@) && leq(b@, c@));
        assert(leq(a@, c@));
    }

    fn at_most(&self, other: &Self) -> (r: bool) {
        !bytes_before(other.bytes.as_slice(), self.bytes.as_slice())
    }
}

/// `list` in the order of names.
pub fn sort_names(list: Vec<FileName>) -> (r: Vec<FileName>)
    ensures
        name_views(r@) == sorted_names(name_views(list@)),
{
    let r: Vec<FileName> = sort(list);
    proof {
        let f = |n: FileName| n@;
        let below = key_order::<FileName>();
        let leq = name_order();
        lemma_name_order();
        assert forall|a: FileName, b: FileName| #[trigger] below(a, b) == leq(f(a), f(b)) by {}
        lemma_sorted_map(r@, list@, f, below, leq);
        let x = name_views(r@);
        let s = name_views(list@);
        lemma_sorted_same_items(x, s, leq);
        s.lemma_sort_by_ensures(leq);
        assert forall|i: int, j: int| 0 <= i < j < x.len() implies #[trigger] leq(x[i], x[j]) by {}
        vstd::seq_lib::lemma_sorted_unique(x, s.sort_by(leq), leq);
    }
    r
}

/// A path without a separator is a single component, or none where it is empty; a dot or two are
/// not names, and a dot behind another path says nothing.
pub proof fn lemma_single_parts(p: Seq<u8>)
    requires
        !p.contains(SLASH),
    ensures
        p.len() == 0 ==> parts(p) == Seq::<Part>::empty() && inner_parts(p) == Seq::<Part>::empty(),
        p == seq![DOT] ==> parts(p) == seq![Part::CurDir] && inner_parts(p) == Seq::<Part>::empty(),
        p == seq![DOT, DOT] ==> parts(p) == seq![Part::ParentDir] && inner_parts(p) == seq![
            Part::ParentDir,
        ],
        p.len() > 0 && p != seq![DOT] && p != seq![DOT, DOT] ==> parts(p) == seq![Part::Normal(p)]
            && inner_parts(p) == seq![Part::Normal(p)],
{
    lemma_split_whole(p, SLASH);
    let pieces = seq![p];
    assert(pieces.drop_last() =~= Seq::empty());
    assert(pieces_parts(pieces.drop_last(), true) == Seq::<Part>::empty());
    assert(pieces_parts(pieces.drop_last(), false) == Seq::<Part>::empty());
    assert(pieces.last() == p);
    assert(!is_absolute(p)) by {
        if is_absolute(p) {
            assert(p.contains(p[0]));
        }
    }
    let none = Seq::<Part>::empty();
    assert(pieces_parts(pieces, true) == with_part(none, piece_part(p, true)));
    assert(pieces_parts(pieces, false) == with_part(none, piece_part(p, false)));
    assert(root_part(false) + pieces_parts(pieces, true) =~= pieces_parts(pieces, true));
    assert(none.push(Part::CurDir) =~= seq![Part::CurDir]);
    assert(none.push(Part::ParentDir) =~= seq![Part::ParentDir]);
    assert(none.push(Part::Normal(p)) =~= seq![Part::Normal(p)]);
    assert(seq![DOT].len() == 1 && seq![DOT, DOT].len() == 2);
}

/// What stands behind a separator adds its components to those ahead of it; a separator in front is
/// the root.
pub proof fn lemma_separated_parts(a: Seq<u8>, b: Seq<u8>)
    ensures
        a.len() > 0 ==> parts(a.push(SLASH) + b) == parts(a) + inner_parts(b),
        a.len() == 0 ==> parts(a.push(SLASH) + b) == seq![Part::RootDir] + inner_parts(b),
        inner_parts(a.push(SLASH) + b) == inner_parts(a) + inner_parts(b),
{
    let whole = a.push(SLASH) + b;
    lemma_split_at(a, b, SLASH);
    lemma_split_nonempty(a);
    lemma_pieces_append(split(a, SLASH), split(b, SLASH), true);
    lemma_pieces_append(split(a, SLASH), split(b, SLASH), false);
    if a.len() > 0 {
        assert(whole[0] == a[0]);
        assert(parts(whole) =~= parts(a) + inner_parts(b));
    } else {
        let none = Seq::<u8>::empty();
        assert(a =~= none);
        assert(split(a, SLASH) =~= seq![none]);
        assert(seq![none].drop_last() =~= Seq::empty());
        assert(pieces_parts(seq![none].drop_last(), true) == Seq::<Part>::empty());
        assert(pieces_parts(seq![none], true) == Seq::<Part>::empty());
        assert(whole[0] == SLASH);
        assert(parts(whole) =~= seq![Part::RootDir] + inner_parts(b));
    }
}

proof fn lemma_up_piece(pieces: Seq<Seq<u8>>, lead: bool)
    ensures
        pieces_parts(pieces, lead).contains(Part::ParentDir) <==> pieces.contains(seq![DOT, DOT]),
        !pieces_parts(pieces, lead).contains(Part::RootDir),
    decreases pieces.len(),
{
    let up = seq![DOT, DOT];
    assert(up.len() == 2 && seq![DOT].len() == 1);
    let all = pieces_parts(pieces, lead);
    if pieces.len() > 0 {
        let front = pieces.drop_last();
        let before = pieces_parts(front, lead);
        let last = pieces.last();
        lemma_up_piece(front, lead);
        assert(front.push(last) =~= pieces);
        if pieces.contains(up) && last != up {
            let i = choose|i: int| 0 <= i < pieces.len() && pieces[i] == up;
            assert(front[i] == up);
        }
        if front.contains(up) {
            let i = choose|i: int| 0 <= i < front.len() && front[i] == up;
            assert(pieces[i] == up);
        }
        if last == up {
            assert(pieces[pieces.len() - 1] == up);
            assert(all.last() == Part::ParentDir);
            assert(all.contains(all[all.len() - 1]));
        }
        if before.contains(Part::ParentDir) {
            let i = choose|i: int| 0 <= i < before.len() && before[i] == Part::ParentDir;
            assert(all[i] == Part::ParentDir);
        }
        if all.contains(Part::ParentDir) {
            let i = choose|i: int| 0 <= i < all.len() && all[i] == Part::ParentDir;
            if i < before.len() {
                assert(before[i] == Part::ParentDir);
            }
        }
        if all.contains(Part::RootDir) {
            let i = choose|i: int| 0 <= i < all.len() && all[i] == Part::RootDir;
            if i < before.len() {
                assert(before[i] == Part::RootDir);
            }
        }
    }
}

/// A path is safe exactly if it does not start with a separator and none of the pieces between its
/// separators is a pair of dots.
pub proof fn lemma_safe_exactly(p: Seq<u8>)
    ensures
        is_safe_relative(p) <==> !(p.len() > 0 && p[0] == SLASH) && !split(p, SLASH).contains(
            seq![DOT, DOT],
        ),
{
    lemma_up_piece(split(p, SLASH), true);
    let inner = pieces_parts(split(p, SLASH), true);
    if !is_absolute(p) {
        assert(parts(p) =~= inner);
        if is_safe_relative(p) && inner.contains(Part::ParentDir) {
            let i = choose|i: int| 0 <= i < inner.len() && inner[i] == Part::ParentDir;
            assert(parts(p)[i] == Part::ParentDir);
        }
        if !inner.contains(Part::ParentDir) {
            assert forall|i: int| 0 <= i < parts(p).len() implies #[trigger] parts(p)[i]
                != Part::ParentDir && parts(p)[i] != Part::RootDir by {
                assert(inner.contains(inner[i]));
            }
        }
    }
}

/// No shorter beginning of a path has its first `k` components.
pub proof fn lemma_lead_shortest(p: Seq<u8>, k: int, n: int)
    requires
        0 <= k <= parts(p).len(),
        0 <= n <= p.len(),
        parts(p.take(n)) == parts(p).take(k),
    ensures
        lead(p, k).len() <= n,
{
    let some_m = lemma_some_lead(p, k);
    let m = lemma_least_lead(p, k, some_m);
    lemma_lead_unique(p, k, m);
    if n < m {
        assert(parts(p.take(n)) != parts(p).take(k));
    }
}

/// A path has a parent unless it has no components or is the root; the parent is the shortest
/// beginning with all its components but the last.
pub proof fn lemma_parent_exactly(p: Seq<u8>)
    ensures
        parent(p) is None <==> parts(p).len() == 0 || parts(p).last() == Part::RootDir,
        parent(p) matches Some(q) ==> {
            &&& q.is_prefix_of(p)
            &&& parts(q) == parts(p).drop_last()
            &&& forall|n: int|
                0 <= n < q.len() ==> parts(#[trigger] p.take(n)) != parts(p).drop_last()
        },
{
    if let Some(q) = parent(p) {
        let k = parts(p).len() - 1;
        lemma_lead_parts(p, k);
        assert(parts(p).take(k) =~= parts(p).drop_last());
        assert forall|n: int| 0 <= n < q.len() implies parts(#[trigger] p.take(n)) != parts(
            p,
        ).drop_last() by {
            if parts(p.take(n)) == parts(p).drop_last() {
                assert(q.len() <= p.len());
                lemma_lead_shortest(p, k, n);
            }
        }
    }
}

/// A path joined to another stands behind it with one separator between them, unless there is
/// nothing ahead of it or a separator already; a path from the root stands alone.
pub proof fn lemma_join_bytes(base: Seq<u8>, rel: Seq<u8>)
    ensures
        rel.len() > 0 && rel[0] == SLASH ==> join(base, rel) == rel,
        !(rel.len() > 0 && rel[0] == SLASH) ==> {
            let whole = join(base, rel);
            let n = base.len() as int;
            &&& whole.take(n) == base
            &&& n == 0 || base.last() == SLASH ==> whole.skip(n) == rel
            &&& n > 0 && base.last() != SLASH ==> whole[n] == SLASH && whole.skip(n + 1) == rel
        },
{
    let whole = join(base, rel);
    let n = base.len() as int;
    if !is_absolute(rel) {
        assert(whole.take(n) =~= base);
        if n == 0 || base.last() == SLASH {
            assert(whole.skip(n) =~= rel);
        } else {
            assert(whole.skip(n + 1) =~= rel);
        }
    }
}

/// The kinds of component follow each other in this order: the root, the current directory, the
/// parent, names. Names go by their bytes.
pub proof fn lemma_part_order(a: Seq<u8>, b: Seq<u8>)
    ensures
        part_lt(Part::RootDir, Part::CurDir),
        part_lt(Part::CurDir, Part::ParentDir),
        part_lt(Part::ParentDir, Part::Normal(a)),
        part_lt(Part::RootDir, Part::ParentDir),
        part_lt(Part::RootDir, Part::Normal(a)),
        part_lt(Part::CurDir, Part::Normal(a)),
        part_lt(Part::Normal(a), Part::Normal(b)) <==> bytes_lt(a, b),
        forall|x: Part, y: Part| #[trigger] part_lt(x, y) ==> !part_lt(y, x),
{
    lemma_bytes_total();
    let less = |x: Seq<u8>, y: Seq<u8>| bytes_lt(x, y);
    assert forall|x: Part, y: Part| #[trigger] part_lt(x, y) implies !part_lt(y, x) by {
        if let (Part::Normal(m), Part::Normal(n)) = (x, y) {
            if less(m, n) && less(n, m) {
                assert(m == n);
                assert(!less(m, m));
            }
        }
    }
}

/// Whether the components are the same up to `n`, and there the first ends or has the lower one.
pub open spec fn lower_part_at(a: Seq<Part>, b: Seq<Part>, n: int) -> bool {
    &&& 0 <= n <= a.len()
    &&& n < b.len()
    &&& forall|i: int| 0 <= i < n ==> #[trigger] a[i] == b[i]
    &&& n < a.len() ==> a[n] != b[n] && part_lt(a[n], b[n])
}

/// Of two paths the first component in which they differ decides.
pub proof fn lemma_paths_order(a: Seq<Part>, b: Seq<Part>)
    ensures
        parts_lt(a, b) <==> exists|n: int| #[trigger] lower_part_at(a, b, n),
{
    let lt = |x: Part, y: Part| part_lt(x, y);
    if parts_lt(a, b) {
        let n = lemma_lex_decided(a, b, lt);
        assert(lower_part_at(a, b, n));
    }
    if exists|n: int| #[trigger] lower_part_at(a, b, n) {
        let n = choose|n: int| #[trigger] lower_part_at(a, b, n);
        lemma_lex_decides(a, b, n, lt);
    }
}

/// Of two different paths one comes before the other.
pub(crate) proof fn lemma_paths_connected(a: Seq<Part>, b: Seq<Part>)
    requires
        a != b,
    ensures
        parts_lt(a, b) || parts_lt(b, a),
{
    lemma_parts_total();
    let q = |a: Seq<Part>, b: Seq<Part>| parts_lt(a, b);
    assert(q(a, b) || q(b, a));
}

} // verus!
