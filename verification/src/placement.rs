//! Where the files of a run come to lie.

use vstd::prelude::*;
use vstd::utf8::encode_utf8;

use crate::inventory::{covers, holds_directory, Load};
use crate::number::{
    decimal, is_hex_digit, lemma_decimal_value, lemma_digits, lemma_padded_decimal,
    padded_decimal,
};
use crate::path::{
    inner_parts, is_absolute, is_name, is_safe_relative, join, lead, lemma_child_parts,
    lemma_inner_parts, lemma_join_parts, lemma_lead_parts, lemma_no_parts, lemma_parent_parts,
    parent, parts, Part, SLASH,
};
use crate::plan::{
    made_directories, made_transfers, run_name, run_root, session_token, temp_name, temp_path,
};

verus! {

/// Whether `t` can mark a session.
pub open spec fn is_token(t: Seq<char>) -> bool {
    forall|i: int| 0 <= i < t.len() ==> is_hex_digit(#[trigger] t[i])
}

/// The mark of every session is made of hexadecimal digits.
pub proof fn lemma_session_token(seconds: u64)
    ensures
        is_token(session_token(seconds)),
        session_token(seconds).len() > 0,
{
    lemma_digits((seconds % 0x1000000) as nat, 16);
}

/// What stands before the first `c` and what stands behind it are told by the whole.
proof fn lemma_first_mark(a: Seq<char>, x: Seq<char>, b: Seq<char>, y: Seq<char>, c: char)
    requires
        !a.contains(c),
        !b.contains(c),
        a.push(c) + x == b.push(c) + y,
    ensures
        a == b,
        x == y,
{
    let s = a.push(c) + x;
    let t = b.push(c) + y;
    assert(s[a.len() as int] == c && t[b.len() as int] == c);
    if a.len() < b.len() {
        assert(b[a.len() as int] == t[a.len() as int]);
        assert(b.contains(c));
    }
    if b.len() < a.len() {
        assert(a[b.len() as int] == s[b.len() as int]);
        assert(a.contains(c));
    }
    assert(a =~= s.take(a.len() as int));
    assert(b =~= t.take(b.len() as int));
    assert(x =~= s.skip(a.len() as int + 1));
    assert(y =~= t.skip(b.len() as int + 1));
}

proof fn lemma_same_behind(a: Seq<char>, x: Seq<char>, y: Seq<char>)
    requires
        a + x == a + y,
    ensures
        x == y,
{
    assert(x =~= (a + x).skip(a.len() as int));
    assert(y =~= (a + y).skip(a.len() as int));
}

/// The directory of a run tells the session, the number of workers and the run.
pub proof fn lemma_run_names_distinct(
    token1: Seq<char>,
    jobs1: nat,
    run1: nat,
    token2: Seq<char>,
    jobs2: nat,
    run2: nat,
)
    requires
        is_token(token1),
        is_token(token2),
        run_name(token1, jobs1, run1) == run_name(token2, jobs2, run2),
    ensures
        token1 == token2,
        jobs1 == jobs2,
        run1 == run2,
{
    reveal_strlit("-");
    let head = ".parsync-push-bench-rust-j"@;
    let end1 = padded_decimal(run1, 3);
    let end2 = padded_decimal(run2, 3);
    let rest1 = token1.push('-') + end1;
    let rest2 = token2.push('-') + end2;
    assert(run_name(token1, jobs1, run1) =~= head + (decimal(jobs1).push('-') + rest1));
    assert(run_name(token2, jobs2, run2) =~= head + (decimal(jobs2).push('-') + rest2));
    lemma_same_behind(head, decimal(jobs1).push('-') + rest1, decimal(jobs2).push('-') + rest2);
    lemma_decimal_value(jobs1);
    lemma_decimal_value(jobs2);
    assert(!decimal(jobs1).contains('-'));
    assert(!decimal(jobs2).contains('-'));
    lemma_first_mark(decimal(jobs1), rest1, decimal(jobs2), rest2, '-');
    assert(!token1.contains('-'));
    assert(!token2.contains('-'));
    lemma_first_mark(token1, end1, token2, end2, '-');
    lemma_padded_decimal(run1, 3);
    lemma_padded_decimal(run2, 3);
}

/// Two runs to one destination share a directory only if they are the same run with the same
/// number of workers in sessions with the same mark.
pub proof fn lemma_run_roots_distinct(
    base: Seq<char>,
    token1: Seq<char>,
    jobs1: nat,
    run1: nat,
    token2: Seq<char>,
    jobs2: nat,
    run2: nat,
)
    requires
        is_token(token1),
        is_token(token2),
        run_root(base, run_name(token1, jobs1, run1)) == run_root(
            base,
            run_name(token2, jobs2, run2),
        ),
    ensures
        token1 == token2,
        jobs1 == jobs2,
        run1 == run2,
{
    let a = run_name(token1, jobs1, run1);
    let b = run_name(token2, jobs2, run2);
    if base.len() > 0 && base != "."@ {
        if base.last() == '/' {
            lemma_same_behind(base, a, b);
        } else {
            lemma_same_behind(base + "/"@, a, b);
        }
    }
    lemma_run_names_distinct(token1, jobs1, run1, token2, jobs2, run2);
}

/// Two files of a session have different names while they are sent.
pub proof fn lemma_temp_names_distinct(token: Seq<char>, n1: nat, n2: nat)
    requires
        temp_name(token, n1) == temp_name(token, n2),
    ensures
        n1 == n2,
{
    let head = ".parsync-part-"@ + token + "-"@;
    lemma_same_behind(head, padded_decimal(n1, 6), padded_decimal(n2, 6));
    lemma_padded_decimal(n1, 6);
    lemma_padded_decimal(n2, 6);
}

/// The name that a file has while it is sent can be that of a directory entry.
proof fn lemma_temp_is_name(token: Seq<char>, number: nat)
    requires
        is_token(token),
    ensures
        is_name(encode_utf8(temp_name(token, number))),
{
    reveal_strlit("-");
    reveal_strlit(".parsync-part-");
    lemma_padded_decimal(number, 6);
    let head = ".parsync-part-"@;
    let digits = padded_decimal(number, 6);
    let s = temp_name(token, number);
    assert forall|i: int| 0 <= i < s.len() implies '\0' <= #[trigger] s[i] <= '\u{7f}' && s[i]
        != '/' by {
        if i < head.len() {
            assert(s[i] == head[i]);
        } else if i < head.len() + token.len() {
            assert(s[i] == token[i - head.len()]);
        } else if i > head.len() + token.len() {
            assert(s[i] == digits[i - head.len() - token.len() - 1]);
        }
    }
    vstd::utf8::is_ascii_chars_encode_utf8(s);
    let name = encode_utf8(s);
    assert forall|i: int| 0 <= i < name.len() implies #[trigger] name[i] != SLASH by {
        assert(s[i] as u8 == name[i]);
    }
    assert(name.len() > 2);
}

proof fn lemma_temp_parts(target: Seq<u8>, token: Seq<char>, number: nat)
    requires
        is_token(token),
    ensures
        ({
            let name = encode_utf8(temp_name(token, number));
            parts(temp_path(target, name)) == match parent(target) {
                Some(dir) => parts(target).drop_last(),
                None => Seq::empty(),
            }.push(Part::Normal(name))
        }),
{
    let name = encode_utf8(temp_name(token, number));
    lemma_temp_is_name(token, number);
    match parent(target) {
        Some(dir) => {
            lemma_parent_parts(target);
            lemma_child_parts(dir, name);
        },
        None => {
            let here = Seq::<u8>::empty();
            lemma_child_parts(here, name);
            assert(join(here, name) =~= name);
            lemma_no_parts();
        },
    }
}

/// A file is sent to where it will lie, but under another name.
pub proof fn lemma_temp_beside_target(root: Seq<u8>, token: Seq<char>, load: Load, i: int)
    requires
        is_token(token),
        0 <= i < load.files.len(),
        parent(made_transfers(root, token, load)[i].target) is Some,
    ensures
        ({
            let t = made_transfers(root, token, load)[i];
            parts(t.temp) == parts(t.target).drop_last().push(
                Part::Normal(encode_utf8(temp_name(token, (i + 1) as nat))),
            )
        }),
{
    lemma_temp_parts(join(root, load.files[i].relative), token, (i + 1) as nat);
}

/// No two files of a run are sent to the same place, so that none can write into another.
pub proof fn lemma_temps_distinct(root: Seq<u8>, token: Seq<char>, load: Load, i: int, j: int)
    requires
        is_token(token),
        0 <= i < load.files.len(),
        0 <= j < load.files.len(),
        i != j,
    ensures
        ({
            let list = made_transfers(root, token, load);
            parts(list[i].temp) != parts(list[j].temp)
        }),
{
    let list = made_transfers(root, token, load);
    lemma_temp_parts(list[i].target, token, (i + 1) as nat);
    lemma_temp_parts(list[j].target, token, (j + 1) as nat);
    if parts(list[i].temp) == parts(list[j].temp) {
        let a = temp_name(token, (i + 1) as nat);
        let b = temp_name(token, (j + 1) as nat);
        assert(parts(list[i].temp).last() == Part::Normal(encode_utf8(a)));
        assert(parts(list[j].temp).last() == Part::Normal(encode_utf8(b)));
        vstd::utf8::encode_utf8_decode_utf8(a);
        vstd::utf8::encode_utf8_decode_utf8(b);
        lemma_temp_names_distinct(token, (i + 1) as nat, (j + 1) as nat);
    }
}

/// The directory of a run has a name.
pub proof fn lemma_root_named(base: Seq<char>, token: Seq<char>, jobs: nat, run: nat)
    ensures
        run_root(base, run_name(token, jobs, run)).len() > 0,
        encode_utf8(run_root(base, run_name(token, jobs, run))).len() > 0,
{
    lemma_padded_decimal(run, 3);
    let root = run_root(base, run_name(token, jobs, run));
    assert(run_name(token, jobs, run).len() > 0);
    assert(vstd::utf8::encode_scalar(root[0] as u32).len() > 0);
}

/// A file comes to lie below the directory of the run, at the place that it has below the
/// source, and stays below it while it is sent.
pub proof fn lemma_stays_below_root(root: Seq<u8>, token: Seq<char>, load: Load, i: int)
    requires
        root.len() > 0,
        is_token(token),
        0 <= i < load.files.len(),
        is_safe_relative(load.files[i].relative),
        inner_parts(load.files[i].relative).len() > 0,
    ensures
        ({
            let t = made_transfers(root, token, load)[i];
            let inner = inner_parts(load.files[i].relative);
            let name = encode_utf8(temp_name(token, (i + 1) as nat));
            &&& parts(t.target) == parts(root) + inner
            &&& parts(t.temp) == parts(root) + inner.drop_last().push(Part::Normal(name))
            &&& forall|k: int| 0 <= k < inner.len() ==> #[trigger] inner[k] is Normal
        }),
{
    let rel = load.files[i].relative;
    let inner = inner_parts(rel);
    let t = made_transfers(root, token, load)[i];
    lemma_join_parts(root, rel);
    lemma_inner_parts(rel);
    assert forall|k: int| 0 <= k < inner.len() implies #[trigger] inner[k] is Normal by {
        let at = if parts(rel)[0] == Part::CurDir {
            k + 1
        } else {
            k
        };
        assert(inner[k] == parts(rel)[at]);
    }
    assert(parts(t.target).last() == inner.last());
    assert(inner.last() == inner[inner.len() - 1]);
    lemma_temp_beside_target(root, token, load, i);
    assert(parts(t.target).drop_last() =~= parts(root) + inner.drop_last());
    assert(parts(t.temp) =~= parts(root) + inner.drop_last().push(
        Part::Normal(encode_utf8(temp_name(token, (i + 1) as nat))),
    ));
}

/// Files from different places come to lie in different places.
pub proof fn lemma_targets_distinct(root: Seq<u8>, token: Seq<char>, load: Load, i: int, j: int)
    requires
        root.len() > 0,
        0 <= i < load.files.len(),
        0 <= j < load.files.len(),
        !is_absolute(load.files[i].relative),
        !is_absolute(load.files[j].relative),
        inner_parts(load.files[i].relative) != inner_parts(load.files[j].relative),
    ensures
        ({
            let list = made_transfers(root, token, load);
            parts(list[i].target) != parts(list[j].target)
        }),
{
    let a = load.files[i].relative;
    let b = load.files[j].relative;
    lemma_join_parts(root, a);
    lemma_join_parts(root, b);
    let n = parts(root).len() as int;
    assert((parts(root) + inner_parts(a)).skip(n) =~= inner_parts(a));
    assert((parts(root) + inner_parts(b)).skip(n) =~= inner_parts(b));
}

/// Every directory between that of the run and a file is made, where the load has all the
/// directories above its files.
pub proof fn lemma_parents_made(root: Seq<u8>, token: Seq<char>, load: Load, i: int, depth: int)
    requires
        root.len() > 0,
        covers(load.directories, load.files),
        0 <= i < load.files.len(),
        !is_absolute(load.files[i].relative),
        parts(root).len() <= depth < parts(made_transfers(root, token, load)[i].target).len(),
    ensures
        exists|d: int|
            0 <= d < made_directories(root, load).len() && parts(
                #[trigger] made_directories(root, load)[d],
            ) == parts(made_transfers(root, token, load)[i].target).take(depth),
{
    let rel = load.files[i].relative;
    let inner = inner_parts(rel);
    let target = join(root, rel);
    let made = made_directories(root, load);
    lemma_join_parts(root, rel);
    lemma_inner_parts(rel);
    let n = parts(root).len() as int;
    if depth == n {
        assert(parts(target).take(n) =~= parts(root));
        assert(made[0] == root);
    } else {
        let extra: int = if parts(rel)[0] == Part::CurDir {
            1
        } else {
            0
        };
        let k = depth - n + extra;
        assert(1 <= k < parts(rel).len());
        assert(load.files[i].relative == rel);
        assert(holds_directory(load.directories, lead(rel, k)));
        lemma_lead_parts(rel, k);
        let d = choose|d: int|
            0 <= d < load.directories.len() && parts(#[trigger] load.directories[d]) == parts(
                lead(rel, k),
            );
        let dir = load.directories[d];
        assert(parts(dir)[0] == parts(rel)[0]);
        assert(parts(rel)[0] != Part::RootDir) by {
            if extra == 0 {
                assert(inner[0] == parts(rel)[0]);
            }
        }
        assert(!is_absolute(dir)) by {
            if is_absolute(dir) {
                assert(parts(dir)[0] == Part::RootDir);
            }
        }
        lemma_join_parts(root, dir);
        lemma_inner_parts(dir);
        assert(inner_parts(dir) =~= inner.take(depth - n));
        assert(parts(target).take(depth) =~= parts(root) + inner.take(depth - n));
        assert(made[d + 1] == join(root, dir));
    }
}

} // verus!
