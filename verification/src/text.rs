//! Text as a sequence of characters: comparing, trimming and splitting it.

use vstd::prelude::*;

verus! {

/// The characters of each text of a list.
pub open spec fn views(list: Seq<String>) -> Seq<Seq<char>> {
    list.map_values(|s: String| s@)
}

/// The characters of a text, if there is one.
pub open spec fn opt_view(text: Option<String>) -> Option<Seq<char>> {
    match text {
        Some(s) => Some(s@),
        None => None,
    }
}

/// The pieces of `s` between the separators: one more than there are separators.
pub open spec fn split<T>(s: Seq<T>, sep: T) -> Seq<Seq<T>>
    decreases s.len(),
{
    if s.len() == 0 {
        seq![Seq::<T>::empty()]
    } else {
        let before = split(s.drop_last(), sep);
        if s.last() == sep {
            before.push(Seq::<T>::empty())
        } else {
            before.drop_last().push(before.last().push(s.last()))
        }
    }
}

/// The characters with Unicode's White_Space property.
pub open spec fn is_white_space(c: char) -> bool {
    ||| '\u{9}' <= c && c <= '\u{d}'
    ||| c == ' '
    ||| c == '\u{85}'
    ||| c == '\u{a0}'
    ||| c == '\u{1680}'
    ||| '\u{2000}' <= c && c <= '\u{200a}'
    ||| c == '\u{2028}'
    ||| c == '\u{2029}'
    ||| c == '\u{202f}'
    ||| c == '\u{205f}'
    ||| c == '\u{3000}'
}

/// `s` without the white space at its front.
pub open spec fn trim_start(s: Seq<char>) -> Seq<char>
    decreases s.len(),
{
    if s.len() > 0 && is_white_space(s[0]) {
        trim_start(s.drop_first())
    } else {
        s
    }
}

/// `s` without the white space at its back.
pub open spec fn trim_end(s: Seq<char>) -> Seq<char>
    decreases s.len(),
{
    if s.len() > 0 && is_white_space(s.last()) {
        trim_end(s.drop_last())
    } else {
        s
    }
}

/// `s` without the white space at either end.
pub open spec fn trim(s: Seq<char>) -> Seq<char> {
    trim_end(trim_start(s))
}

/// The items of a comma separated list: trimmed, and those that are then empty left out.
pub open spec fn comma_items(s: Seq<char>) -> Seq<Seq<char>> {
    kept_items(split(s, ','))
}

/// What is kept of the pieces of a comma separated list.
pub open spec fn kept_items(pieces: Seq<Seq<char>>) -> Seq<Seq<char>> {
    pieces.map_values(|piece: Seq<char>| trim(piece)).filter(|item: Seq<char>| item.len() > 0)
}

/// What follows `prefix` in `s`, where `s` begins with it.
pub open spec fn after_prefix(s: Seq<char>, prefix: Seq<char>) -> Option<Seq<char>> {
    if prefix.is_prefix_of(s) {
        Some(s.skip(prefix.len() as int))
    } else {
        None
    }
}

/// The characters of `s`, one by one.
pub fn chars_of(s: &str) -> (r: Vec<char>)
    ensures
        r@ == s@,
{
    let mut out: Vec<char> = Vec::new();
    for c in it: s.chars()
        invariant
            it.seq() == s@,
            out@ == s@.take(it.index()),
    {
        out.push(c);
    }
    out
}

/// Whether two texts are the same.
pub fn same_text(a: &str, b: &str) -> (r: bool)
    ensures
        r == (a@ == b@),
{
    let x: &[u8] = a.as_bytes();
    let y: &[u8] = b.as_bytes();
    proof {
        vstd::utf8::encode_utf8_decode_utf8(a@);
        vstd::utf8::encode_utf8_decode_utf8(b@);
    }
    same_bytes(x, y)
}

/// Whether two byte strings are the same.
pub fn same_bytes(x: &[u8], y: &[u8]) -> (r: bool)
    ensures
        r == (x@ == y@),
{
    if x.len() != y.len() {
        return false;
    }
    let mut i: usize = 0;
    while i < x.len()
        invariant
            x.len() == y.len(),
            i <= x.len(),
            forall|k: int| 0 <= k < i ==> x[k] == y[k],
        decreases x.len() - i,
    {
        if x[i] != y[i] {
            return false;
        }
        i += 1;
    }
    assert(x@ =~= y@);
    true
}

/// Takes `prefix` off the front of `s`.
pub fn strip_prefix<'a>(s: &'a str, prefix: &str) -> (r: Option<&'a str>)
    ensures
        match r {
            Some(rest) => after_prefix(s@, prefix@) == Some(rest@),
            None => after_prefix(s@, prefix@) is None,
        },
{
    let x: Vec<char> = chars_of(s);
    let y: Vec<char> = chars_of(prefix);
    if x.len() < y.len() {
        return None;
    }
    let mut i: usize = 0;
    while i < y.len()
        invariant
            y.len() <= x.len(),
            x@ == s@,
            y@ == prefix@,
            i <= y.len(),
            forall|k: int| 0 <= k < i ==> x[k] == y[k],
        decreases y.len() - i,
    {
        if x[i] != y[i] {
            assert(s@.subrange(0, prefix@.len() as int)[i as int] != prefix@[i as int]);
            return None;
        }
        i += 1;
    }
    assert(prefix@ =~= s@.subrange(0, prefix@.len() as int));
    let rest: &'a str = s.substring_char(y.len(), x.len());
    assert(rest@ =~= s@.skip(prefix@.len() as int));
    Some(rest)
}

/// Whether `c` has the White_Space property.
pub fn white_space(c: char) -> (r: bool)
    ensures
        r == is_white_space(c),
{
    ('\u{9}' <= c && c <= '\u{d}') || c == ' ' || c == '\u{85}' || c == '\u{a0}' || c == '\u{1680}'
        || ('\u{2000}' <= c && c <= '\u{200a}') || c == '\u{2028}' || c == '\u{2029}' || c
        == '\u{202f}' || c == '\u{205f}' || c == '\u{3000}'
}

/// The ends of `chars[from..to]` once the white space at either end is left out.
fn trimmed_range(chars: &Vec<char>, from: usize, to: usize) -> (r: (usize, usize))
    requires
        from <= to <= chars.len(),
    ensures
        from <= r.0 <= r.1 <= to,
        chars@.subrange(r.0 as int, r.1 as int) == trim(chars@.subrange(from as int, to as int)),
{
    let ghost whole = chars@.subrange(from as int, to as int);
    let mut a: usize = from;
    while a < to && white_space(chars[a])
        invariant
            from <= a <= to <= chars.len(),
            trim_start(chars@.subrange(a as int, to as int)) == trim_start(whole),
        decreases to - a,
    {
        assert(chars@.subrange(a as int, to as int).drop_first() =~= chars@.subrange(
            a + 1,
            to as int,
        ));
        a += 1;
    }
    let ghost front = chars@.subrange(a as int, to as int);
    assert(trim_start(whole) == front);
    let mut b: usize = to;
    while a < b && white_space(chars[b - 1])
        invariant
            from <= a <= b <= to <= chars.len(),
            trim_end(chars@.subrange(a as int, b as int)) == trim_end(front),
        decreases b,
    {
        assert(chars@.subrange(a as int, b as int).drop_last() =~= chars@.subrange(
            a as int,
            b - 1,
        ));
        b -= 1;
    }
    (a, b)
}

/// The items of the comma separated list `s`.
pub fn comma_list(s: &str) -> (r: Vec<String>)
    ensures
        views(r@) == comma_items(s@),
{
    let chars: Vec<char> = chars_of(s);
    let mut out: Vec<String> = Vec::new();
    let mut start: usize = 0;
    let mut i: usize = 0;
    let ghost mut done: Seq<Seq<char>> = Seq::empty();
    proof {
        assert(chars@.take(0) =~= Seq::empty());
        assert(chars@.subrange(0, 0) =~= Seq::empty());
        assert(done.push(Seq::<char>::empty()) =~= split(chars@.take(0), ','));
        assert(views(out@) =~= kept_items(done));
    }
    while i < chars.len()
        invariant
            chars@ == s@,
            start <= i <= chars.len(),
            split(chars@.take(i as int), ',') == done.push(
                chars@.subrange(start as int, i as int),
            ),
            views(out@) == kept_items(done),
        decreases chars.len() - i,
    {
        let ghost before = chars@.take(i as int);
        let ghost piece = chars@.subrange(start as int, i as int);
        proof {
            let after = chars@.take(i + 1);
            assert(after.drop_last() =~= before);
            assert(after.last() == chars@[i as int]);
        }
        if chars[i] == ',' {
            push_item(s, &chars, start, i, &mut out);
            proof {
                lemma_kept_items_push(done, piece);
                done = done.push(piece);
                assert(chars@.subrange(i + 1, i + 1) =~= Seq::<char>::empty());
            }
            start = i + 1;
        } else {
            proof {
                assert(done.push(piece).drop_last() =~= done);
                assert(piece.push(chars@[i as int]) =~= chars@.subrange(start as int, i + 1));
            }
        }
        i += 1;
    }
    push_item(s, &chars, start, i, &mut out);
    proof {
        assert(chars@.take(i as int) =~= s@);
        lemma_kept_items_push(done, chars@.subrange(start as int, i as int));
    }
    out
}

proof fn lemma_kept_items_push(pieces: Seq<Seq<char>>, piece: Seq<char>)
    ensures
        kept_items(pieces.push(piece)) == if trim(piece).len() > 0 {
            kept_items(pieces).push(trim(piece))
        } else {
            kept_items(pieces)
        },
{
    let f = |piece: Seq<char>| trim(piece);
    let keep = |item: Seq<char>| item.len() > 0;
    assert(pieces.push(piece).map_values(f) =~= pieces.map_values(f).push(trim(piece)));
    pieces.map_values(f).lemma_filter_push(trim(piece), keep);
}

/// Adds the trimmed piece `chars[from..to]` of `s` to `out`, unless it is then empty.
fn push_item(s: &str, chars: &Vec<char>, from: usize, to: usize, out: &mut Vec<String>)
    requires
        chars@ == s@,
        from <= to <= chars.len(),
    ensures
        ({
            let item = trim(s@.subrange(from as int, to as int));
            views(final(out)@) == if item.len() > 0 {
                views(old(out)@).push(item)
            } else {
                views(old(out)@)
            }
        }),
{
    let (a, b) = trimmed_range(chars, from, to);
    if a < b {
        let item: String = s.substring_char(a, b).to_owned();
        out.push(item);
        assert(views(out@) =~= views(old(out)@).push(item@));
    }
}

proof fn lemma_split_some<T>(s: Seq<T>, sep: T)
    ensures
        split(s, sep).len() > 0,
    decreases s.len(),
{
    if s.len() > 0 {
        lemma_split_some(s.drop_last(), sep);
    }
}

/// What stands ahead of a separator and what stands behind it are split on their own.
pub proof fn lemma_split_at<T>(a: Seq<T>, b: Seq<T>, sep: T)
    ensures
        split(a.push(sep) + b, sep) == split(a, sep) + split(b, sep),
    decreases b.len(),
{
    let whole = a.push(sep) + b;
    lemma_split_some(b, sep);
    if b.len() == 0 {
        assert(whole =~= a.push(sep));
        assert(whole.drop_last() =~= a);
        assert(split(b, sep) =~= seq![Seq::<T>::empty()]);
        assert(split(whole, sep) =~= split(a, sep) + split(b, sep));
    } else {
        let c = b.drop_last();
        lemma_split_at(a, c, sep);
        lemma_split_some(c, sep);
        assert(whole.drop_last() =~= a.push(sep) + c);
        let front = split(a, sep);
        let back = split(c, sep);
        if b.last() == sep {
            assert((front + back).push(Seq::empty()) =~= front + back.push(Seq::empty()));
        } else {
            let last = back.last().push(b.last());
            assert((front + back).drop_last().push(last) =~= front + back.drop_last().push(last));
        }
    }
}

/// What holds no separator is one piece.
pub proof fn lemma_split_whole<T>(s: Seq<T>, sep: T)
    requires
        !s.contains(sep),
    ensures
        split(s, sep) == seq![s],
    decreases s.len(),
{
    if s.len() == 0 {
        assert(s =~= Seq::empty());
    } else {
        let t = s.drop_last();
        assert(s[s.len() - 1] != sep);
        assert(!t.contains(sep)) by {
            if t.contains(sep) {
                let i = choose|i: int| 0 <= i < t.len() && t[i] == sep;
                assert(s[i] == sep);
            }
        }
        lemma_split_whole(t, sep);
        assert(t.push(s.last()) =~= s);
        assert(split(s, sep) =~= seq![s]);
    }
}

/// What is trimmed away at the front is white space, and what is left does not start with any.
proof fn lemma_trim_start(s: Seq<char>) -> (n: int)
    ensures
        0 <= n <= s.len(),
        trim_start(s) == s.skip(n),
        forall|i: int| 0 <= i < n ==> is_white_space(#[trigger] s[i]),
        n < s.len() ==> !is_white_space(s[n]),
    decreases s.len(),
{
    if s.len() > 0 && is_white_space(s[0]) {
        let t = s.drop_first();
        let n = lemma_trim_start(t);
        assert(t.skip(n) =~= s.skip(n + 1));
        assert forall|i: int| 0 <= i < n + 1 implies is_white_space(#[trigger] s[i]) by {
            if i > 0 {
                assert(s[i] == t[i - 1]);
            }
        }
        n + 1
    } else {
        assert(s.skip(0) =~= s);
        0
    }
}

proof fn lemma_trim_end(s: Seq<char>) -> (n: int)
    ensures
        0 <= n <= s.len(),
        trim_end(s) == s.take(n),
        forall|i: int| n <= i < s.len() ==> is_white_space(#[trigger] s[i]),
        n > 0 ==> !is_white_space(s[n - 1]),
    decreases s.len(),
{
    if s.len() > 0 && is_white_space(s.last()) {
        let t = s.drop_last();
        let n = lemma_trim_end(t);
        assert(t.take(n) =~= s.take(n));
        assert forall|i: int| n <= i < s.len() implies is_white_space(#[trigger] s[i]) by {
            if i < t.len() {
                assert(s[i] == t[i]);
            }
        }
        n
    } else {
        assert(s.take(s.len() as int) =~= s);
        s.len() as int
    }
}

/// Trimming takes off white space at either end, all of it, and nothing else.
pub proof fn lemma_trimmed(s: Seq<char>)
    ensures
        exists|a: int, b: int|
            0 <= a <= b <= s.len() && trim(s) == #[trigger] s.subrange(a, b) && (forall|i: int|
                0 <= i < s.len() && !(a <= i < b) ==> is_white_space(#[trigger] s[i])),
        trim(s).len() > 0 ==> !is_white_space(trim(s)[0]) && !is_white_space(trim(s).last()),
{
    let a = lemma_trim_start(s);
    let t = s.skip(a);
    let n = lemma_trim_end(t);
    let b = a + n;
    assert(t.take(n) =~= s.subrange(a, b));
    assert forall|i: int| 0 <= i < s.len() && !(a <= i < b) implies is_white_space(
        #[trigger] s[i],
    ) by {
        if i >= b {
            assert(s[i] == t[i - a]);
        }
    }
    if n > 0 {
        assert(trim(s)[0] == s[a]);
        assert(trim(s).last() == t[n - 1]);
    }
}

/// A comma joins two lists.
pub proof fn lemma_lists_joined(a: Seq<char>, b: Seq<char>)
    ensures
        comma_items(a.push(',') + b) == comma_items(a) + comma_items(b),
{
    lemma_split_at(a, b, ',');
    let f = |piece: Seq<char>| trim(piece);
    let x = split(a, ',').map_values(f);
    let y = split(b, ',').map_values(f);
    assert((split(a, ',') + split(b, ',')).map_values(f) =~= x + y);
    Seq::filter_distributes_over_add(x, y, |item: Seq<char>| item.len() > 0);
}

/// What holds no comma is one item, trimmed, or none where nothing is left of it.
pub proof fn lemma_one_item(s: Seq<char>)
    requires
        !s.contains(','),
    ensures
        comma_items(s) == if trim(s).len() > 0 {
            seq![trim(s)]
        } else {
            Seq::empty()
        },
{
    lemma_split_whole(s, ',');
    let none = Seq::<Seq<char>>::empty();
    let keep = |item: Seq<char>| item.len() > 0;
    assert(seq![s].map_values(|piece: Seq<char>| trim(piece)) =~= none.push(trim(s)));
    none.lemma_filter_push(trim(s), keep);
    assert(none.filter(keep) =~= none);
    assert(none.push(trim(s)) =~= seq![trim(s)]);
}

/// A text has the beginning `prefix` exactly if it is `prefix` with something behind it.
pub proof fn lemma_after_prefix(s: Seq<char>, prefix: Seq<char>, rest: Seq<char>)
    ensures
        after_prefix(s, prefix) == Some(rest) <==> s == prefix + rest,
{
    let n = prefix.len() as int;
    if after_prefix(s, prefix) == Some(rest) {
        assert(prefix =~= s.subrange(0, n));
        assert(s =~= prefix + rest);
    }
    if s == prefix + rest {
        assert(s.skip(n) =~= rest);
        assert(prefix =~= s.subrange(0, n));
    }
}

} // verus!
