//! Reading and writing unsigned numbers as text.

use vstd::arithmetic::power::pow;
use vstd::prelude::*;

use crate::text::chars_of;

verus! {

/// Why a text is not an unsigned number.
#[derive(Debug, Clone, Copy, PartialEq, Eq, Structural)]
pub enum NumberError {
    /// The text is empty.
    Empty,
    /// A character other than a decimal digit stands where a digit is due.
    InvalidDigit,
    /// The number does not fit.
    TooLarge,
}

impl NumberError {
    /// What is wrong, in words.
    pub open spec fn text(self) -> Seq<char> {
        match self {
            NumberError::Empty => "cannot parse integer from empty string"@,
            NumberError::InvalidDigit => "invalid digit found in string"@,
            NumberError::TooLarge => "number too large to fit in target type"@,
        }
    }

    /// Says what is wrong.
    pub fn message(&self) -> (r: &'static str)
        ensures
            r@ == self.text(),
    {
        match self {
            NumberError::Empty => "cannot parse integer from empty string",
            NumberError::InvalidDigit => "invalid digit found in string",
            NumberError::TooLarge => "number too large to fit in target type",
        }
    }
}

pub open spec fn is_digit(c: char) -> bool {
    '0' <= c && c <= '9'
}

pub open spec fn digit_value(c: char) -> nat {
    (c as u32 - '0' as u32) as nat
}

/// The number that a run of decimal digits stands for.
pub open spec fn decimal_value(s: Seq<char>) -> nat
    decreases s.len(),
{
    if s.len() == 0 {
        0
    } else {
        10 * decimal_value(s.drop_last()) + digit_value(s.last())
    }
}

/// How many digits stand at the front of `s`.
pub open spec fn leading_digits(s: Seq<char>) -> nat
    decreases s.len(),
{
    if s.len() == 0 || !is_digit(s[0]) {
        0
    } else {
        1 + leading_digits(s.drop_first())
    }
}

/// The digits of a number's text: what is left once one plus sign ahead of
/// something else is taken off.
pub open spec fn unsigned_body(s: Seq<char>) -> Seq<char> {
    if s.len() > 1 && s[0] == '+' {
        s.skip(1)
    } else {
        s
    }
}

/// What `s` reads as, where the largest number that fits is `max`.
pub open spec fn unsigned(s: Seq<char>, max: nat) -> Result<nat, NumberError> {
    let body = unsigned_body(s);
    let run = leading_digits(body) as int;
    if s.len() == 0 {
        Err(NumberError::Empty)
    } else if decimal_value(body.take(run)) > max {
        Err(NumberError::TooLarge)
    } else if run < body.len() {
        Err(NumberError::InvalidDigit)
    } else {
        Ok(decimal_value(body))
    }
}

proof fn lemma_leading_digits(s: Seq<char>, n: int)
    requires
        0 <= n <= s.len(),
        forall|i: int| 0 <= i < n ==> is_digit(#[trigger] s[i]),
        n == s.len() || !is_digit(s[n]),
    ensures
        leading_digits(s) == n,
    decreases s.len(),
{
    if n > 0 {
        assert(is_digit(s[0]));
        let t = s.drop_first();
        assert forall|i: int| 0 <= i < n - 1 implies is_digit(#[trigger] t[i]) by {
            assert(t[i] == s[i + 1]);
        }
        lemma_leading_digits(t, n - 1);
    }
}

proof fn lemma_leading_digits_bound(s: Seq<char>)
    ensures
        leading_digits(s) <= s.len(),
        forall|i: int| 0 <= i < leading_digits(s) ==> is_digit(#[trigger] s[i]),
        leading_digits(s) < s.len() ==> !is_digit(s[leading_digits(s) as int]),
    decreases s.len(),
{
    if s.len() > 0 && is_digit(s[0]) {
        let t = s.drop_first();
        lemma_leading_digits_bound(t);
        assert forall|i: int| 0 <= i < leading_digits(s) implies is_digit(#[trigger] s[i]) by {
            if i > 0 {
                assert(s[i] == t[i - 1]);
            }
        }
    }
}

proof fn lemma_decimal_value_grows(s: Seq<char>, n: int, m: int)
    requires
        0 <= n <= m <= s.len(),
    ensures
        decimal_value(s.take(n)) <= decimal_value(s.take(m)),
    decreases m,
{
    if n < m {
        lemma_decimal_value_grows(s, n, m - 1);
        assert(s.take(m).drop_last() =~= s.take(m - 1));
    }
}

/// Reads `s` as an unsigned number.
pub fn parse_usize(s: &str) -> (r: Result<usize, NumberError>)
    ensures
        match r {
            Ok(n) => unsigned(s@, usize::MAX as nat) == Ok::<nat, NumberError>(n as nat),
            Err(e) => unsigned(s@, usize::MAX as nat) == Err::<nat, NumberError>(e),
        },
{
    let chars: Vec<char> = chars_of(s);
    if chars.len() == 0 {
        return Err(NumberError::Empty);
    }
    let from: usize = if chars.len() > 1 && chars[0] == '+' {
        1
    } else {
        0
    };
    let ghost body = unsigned_body(s@);
    assert(body =~= chars@.skip(from as int));
    let mut value: usize = 0;
    let mut i: usize = from;
    assert(body.take(0) =~= Seq::empty());
    while i < chars.len()
        invariant
            chars@ == s@,
            s@.len() > 0,
            from <= i <= chars.len(),
            body == unsigned_body(s@),
            body == chars@.skip(from as int),
            forall|k: int| 0 <= k < i - from ==> is_digit(#[trigger] body[k]),
            value == decimal_value(body.take(i - from)),
        decreases chars.len() - i,
    {
        let c: char = chars[i];
        assert(c == body[i - from]);
        if !('0' <= c && c <= '9') {
            proof {
                lemma_leading_digits(body, i - from);
            }
            return Err(NumberError::InvalidDigit);
        }
        let digit: usize = (c as u32 - '0' as u32) as usize;
        proof {
            let longer = body.take(i - from + 1);
            assert(longer.drop_last() =~= body.take(i - from));
            assert(longer.last() == c);
            assert(decimal_value(longer) == 10 * value + digit);
            lemma_leading_digits_bound(body);
            if leading_digits(body) < i - from + 1 {
                assert(is_digit(body[leading_digits(body) as int]));
            }
            lemma_decimal_value_grows(body, i - from + 1, leading_digits(body) as int);
        }
        if value > usize::MAX / 10 || value * 10 > usize::MAX - digit {
            return Err(NumberError::TooLarge);
        }
        value = value * 10 + digit;
        i += 1;
    }
    proof {
        lemma_leading_digits(body, body.len() as int);
        assert(body.take(body.len() as int) =~= body);
    }
    Ok(value)
}

/// The character of a digit below sixteen.
pub open spec fn digit_char(d: nat) -> char {
    if d < 10 {
        (d + '0' as nat) as char
    } else {
        (d - 10 + 'a' as nat) as char
    }
}

/// The digits of `n` in base `base`, without leading zeros.
pub open spec fn digits(n: nat, base: nat) -> Seq<char>
    decreases n,
{
    if base < 2 || n < base {
        seq![digit_char(n)]
    } else {
        proof {
            vstd::arithmetic::div_mod::lemma_div_decreases(n as int, base as int);
        }
        digits(n / base, base).push(digit_char(n % base))
    }
}

/// `n` in decimal.
pub open spec fn decimal(n: nat) -> Seq<char> {
    digits(n, 10)
}

/// `n` in decimal, with zeros in front where it has fewer than `width` digits.
pub open spec fn padded_decimal(n: nat, width: nat) -> Seq<char> {
    let plain = decimal(n);
    let zeros = if plain.len() < width {
        (width - plain.len()) as nat
    } else {
        0
    };
    Seq::new(zeros, |i: int| '0') + plain
}

/// The text of a digit below sixteen.
fn digit_text(d: u64) -> (r: &'static str)
    requires
        d < 16,
    ensures
        r@ == seq![digit_char(d as nat)],
{
    let r: &'static str = match d {
        0 => "0",
        1 => "1",
        2 => "2",
        3 => "3",
        4 => "4",
        5 => "5",
        6 => "6",
        7 => "7",
        8 => "8",
        9 => "9",
        10 => "a",
        11 => "b",
        12 => "c",
        13 => "d",
        14 => "e",
        _ => "f",
    };
    proof {
        reveal_strlit("0");
        reveal_strlit("1");
        reveal_strlit("2");
        reveal_strlit("3");
        reveal_strlit("4");
        reveal_strlit("5");
        reveal_strlit("6");
        reveal_strlit("7");
        reveal_strlit("8");
        reveal_strlit("9");
        reveal_strlit("a");
        reveal_strlit("b");
        reveal_strlit("c");
        reveal_strlit("d");
        reveal_strlit("e");
        reveal_strlit("f");
        assert(r@ =~= seq![digit_char(d as nat)]);
    }
    r
}

/// Writes `n` in base `base`.
fn digits_text(n: u64, base: u64) -> (r: String)
    requires
        2 <= base <= 16,
    ensures
        r@ == digits(n as nat, base as nat),
    decreases n,
{
    if n < base {
        digit_text(n).to_owned()
    } else {
        proof {
            vstd::arithmetic::div_mod::lemma_div_decreases(n as int, base as int);
        }
        let mut out: String = digits_text(n / base, base);
        out.append(digit_text(n % base));
        assert(out@ =~= digits(n as nat, base as nat));
        out
    }
}

/// Writes `n` in decimal.
pub fn decimal_text(n: u64) -> (r: String)
    ensures
        r@ == decimal(n as nat),
{
    digits_text(n, 10)
}

/// Writes `n` in lower case hexadecimal.
pub fn hex_text(n: u64) -> (r: String)
    ensures
        r@ == digits(n as nat, 16),
{
    digits_text(n, 16)
}

/// Writes `n` in decimal, filled up with zeros in front to `width` digits.
pub fn padded_decimal_text(n: u64, width: usize) -> (r: String)
    ensures
        r@ == padded_decimal(n as nat, width as nat),
{
    let plain: String = decimal_text(n);
    let len: usize = plain.as_str().unicode_len();
    let mut out: String = String::new();
    let mut have: usize = len;
    let ghost mut zeros: nat = 0;
    assert(Seq::new(0, |i: int| '0') =~= Seq::<char>::empty());
    while have < width
        invariant
            len <= have,
            have <= width || zeros == 0,
            have == len + zeros,
            out@ == Seq::new(zeros, |i: int| '0'),
        decreases width - have,
    {
        out.append("0");
        proof {
            reveal_strlit("0");
            assert(out@ =~= Seq::new(zeros + 1, |i: int| '0'));
            zeros = zeros + 1;
        }
        have += 1;
    }
    out.append(plain.as_str());
    out
}

/// A number's decimal text holds digits only, and stands for the number.
pub(crate) proof fn lemma_decimal_value(n: nat)
    ensures
        decimal(n).len() > 0,
        forall|i: int| 0 <= i < decimal(n).len() ==> is_digit(#[trigger] decimal(n)[i]),
        decimal_value(decimal(n)) == n,
    decreases n,
{
    if n >= 10 {
        lemma_decimal_value(n / 10);
        assert(decimal(n).drop_last() =~= decimal(n / 10));
    } else {
        assert(decimal(n).drop_last() =~= Seq::empty());
        assert(decimal_value(Seq::empty()) == 0);
    }
}

/// Reading what was written gives the number back.
pub proof fn lemma_decimal_round_trip(n: nat, max: nat)
    requires
        n <= max,
    ensures
        unsigned(decimal(n), max) == Ok::<nat, NumberError>(n),
{
    lemma_decimal_value(n);
    let s = decimal(n);
    assert(is_digit(s[0]));
    lemma_leading_digits(s, s.len() as int);
    assert(s.take(s.len() as int) =~= s);
}

/// Whether `c` is a digit in lower case hexadecimal.
pub open spec fn is_hex_digit(c: char) -> bool {
    is_digit(c) || 'a' <= c <= 'f'
}

pub(crate) proof fn lemma_digits(n: nat, base: nat)
    requires
        2 <= base <= 16,
    ensures
        digits(n, base).len() > 0,
        forall|i: int| 0 <= i < digits(n, base).len() ==> is_hex_digit(#[trigger] digits(n, base)[i]),
    decreases n,
{
    if n >= base {
        vstd::arithmetic::div_mod::lemma_div_decreases(n as int, base as int);
        vstd::arithmetic::div_mod::lemma_mod_bound(n as int, base as int);
        lemma_digits(n / base, base);
        assert(is_hex_digit(digit_char(n % base)));
    }
}

proof fn lemma_zeros_in_front(zeros: nat, s: Seq<char>)
    ensures
        decimal_value(Seq::new(zeros, |i: int| '0') + s) == decimal_value(s),
    decreases zeros, s.len(),
{
    let front = Seq::new(zeros, |i: int| '0');
    let whole = front + s;
    if s.len() > 0 {
        assert(whole.drop_last() =~= front + s.drop_last());
        lemma_zeros_in_front(zeros, s.drop_last());
    } else if zeros > 0 {
        let fewer = (zeros - 1) as nat;
        assert(whole.drop_last() =~= Seq::new(fewer, |i: int| '0') + s);
        lemma_zeros_in_front(fewer, s);
        assert(s =~= Seq::empty());
    } else {
        assert(whole =~= s);
    }
}

/// A padded number has the digits of the number, and still reads as it.
pub proof fn lemma_padded_decimal(n: nat, width: nat)
    ensures
        padded_decimal(n, width).len() > 0,
        padded_decimal(n, width).len() >= width,
        forall|i: int|
            0 <= i < padded_decimal(n, width).len() ==> is_digit(
                #[trigger] padded_decimal(n, width)[i],
            ),
        decimal_value(padded_decimal(n, width)) == n,
{
    let plain = decimal(n);
    lemma_decimal_value(n);
    let zeros = if plain.len() < width {
        (width - plain.len()) as nat
    } else {
        0
    };
    lemma_zeros_in_front(zeros, plain);
    assert forall|i: int| 0 <= i < padded_decimal(n, width).len() implies is_digit(
        #[trigger] padded_decimal(n, width)[i],
    ) by {
        if i >= zeros {
            assert(padded_decimal(n, width)[i] == plain[i - zeros]);
        }
    }
}

/// The number of a run of digits with more digits behind it: each digit counts ten times what the
/// next one does.
pub proof fn lemma_value_of_joined(a: Seq<char>, b: Seq<char>)
    ensures
        decimal_value(a + b) == decimal_value(a) * pow(10, b.len()) + decimal_value(b),
    decreases b.len(),
{
    reveal(pow);
    if b.len() == 0 {
        assert(a + b =~= a);
        assert(pow(10, 0) == 1);
    } else {
        let c = b.drop_last();
        lemma_value_of_joined(a, c);
        assert((a + b).drop_last() =~= a + c);
        let x = decimal_value(a) as int;
        let p = pow(10, c.len());
        assert(pow(10, b.len()) == 10 * p);
        assert(10 * (x * p) == x * (10 * p)) by (nonlinear_arith);
    }
}

/// A single digit stands for its place among the digits, and no digits stand for nothing.
pub proof fn lemma_value_of_digit(c: char)
    requires
        is_digit(c),
    ensures
        decimal_value(seq![c]) == c as int - '0' as int,
        decimal_value(Seq::empty()) == 0,
{
    assert(seq![c].drop_last() =~= Seq::empty());
    assert(decimal_value(Seq::empty()) == 0);
}

/// Whether `s` is a run of digits, one at least.
pub open spec fn all_digits(s: Seq<char>) -> bool {
    s.len() > 0 && forall|i: int| 0 <= i < s.len() ==> '0' <= #[trigger] s[i] <= '9'
}

proof fn lemma_whole_body(s: Seq<char>)
    requires
        all_digits(s),
    ensures
        leading_digits(s) == s.len(),
        s.take(leading_digits(s) as int) == s,
        unsigned_body(s) == s,
{
    assert forall|i: int| 0 <= i < s.len() implies is_digit(#[trigger] s[i]) by {}
    lemma_leading_digits(s, s.len() as int);
    assert(s.take(s.len() as int) =~= s);
    assert(s[0] != '+');
}

/// A text reads as `n` exactly if it is a run of digits for `n`, alone or behind one plus sign, and
/// `n` is not too large.
pub proof fn lemma_number_read(s: Seq<char>, max: nat, n: nat)
    ensures
        unsigned(s, max) == Ok::<nat, NumberError>(n) <==> n <= max && {
            ||| all_digits(s) && decimal_value(s) == n
            ||| s.len() > 1 && s[0] == '+' && all_digits(s.skip(1)) && decimal_value(s.skip(1)) == n
        },
{
    let body = unsigned_body(s);
    lemma_leading_digits_bound(body);
    if unsigned(s, max) == Ok::<nat, NumberError>(n) {
        assert(body.take(body.len() as int) =~= body);
        assert forall|i: int| 0 <= i < body.len() implies '0' <= #[trigger] body[i] <= '9' by {
            assert(is_digit(body[i]));
        }
    }
    if all_digits(s) {
        lemma_whole_body(s);
    }
    if s.len() > 1 && s[0] == '+' && all_digits(s.skip(1)) {
        let t = s.skip(1);
        assert forall|i: int| 0 <= i < t.len() implies is_digit(#[trigger] t[i]) by {}
        lemma_leading_digits(t, t.len() as int);
        assert(t.take(t.len() as int) =~= t);
    }
}

/// Whether the digits from `from` to `to`, which stand at the front of `s` or behind a plus sign
/// there, are too many for `max`.
pub open spec fn overflows(s: Seq<char>, max: nat, from: int, to: int) -> bool {
    &&& from == 0 || from == 1 && s[0] == '+'
    &&& from <= to <= s.len()
    &&& forall|i: int| from <= i < to ==> '0' <= #[trigger] s[i] <= '9'
    &&& decimal_value(s.subrange(from, to)) > max
}

/// An empty text is told apart from the others; a text is too large exactly if the digits that it
/// starts with are, whatever follows them; any other text that is no number holds something else
/// than digits.
pub proof fn lemma_number_refused(s: Seq<char>, max: nat)
    ensures
        unsigned(s, max) == Err::<nat, NumberError>(NumberError::Empty) <==> s.len() == 0,
        unsigned(s, max) == Err::<nat, NumberError>(NumberError::TooLarge) <==> exists|
            from: int,
            to: int,
        | #[trigger] overflows(s, max, from, to),
{
    let body = unsigned_body(s);
    let start: int = if s.len() > 1 && s[0] == '+' {
        1
    } else {
        0
    };
    assert(body =~= s.skip(start));
    lemma_leading_digits_bound(body);
    let run = leading_digits(body) as int;
    assert(body.take(run) =~= s.subrange(start, start + run));
    if unsigned(s, max) == Err::<nat, NumberError>(NumberError::TooLarge) {
        assert forall|i: int| start <= i < start + run implies '0' <= #[trigger] s[i] <= '9' by {
            assert(is_digit(body[i - start]));
        }
        assert(overflows(s, max, start, start + run));
    }
    if exists|from: int, to: int| #[trigger] overflows(s, max, from, to) {
        let (from, to) = choose|from: int, to: int| #[trigger] overflows(s, max, from, to);
        if from == to {
            assert(s.subrange(from, to) =~= Seq::empty());
            assert(decimal_value(Seq::empty()) == 0);
        }
        assert(s[from] != '+');
        assert(from == start);
        let m = to - from;
        assert(s.subrange(from, to) =~= body.take(m));
        if m > run {
            assert('0' <= s[start + run] <= '9');
            assert(is_digit(body[run]));
        }
        lemma_decimal_value_grows(body, m, run);
    }
}

/// The number that a digit below sixteen stands for.
pub open spec fn hex_rank(c: char) -> int {
    if '0' <= c <= '9' {
        c as int - '0' as int
    } else {
        c as int - 'a' as int + 10
    }
}

/// The number that a run of digits in base `base` stands for.
pub open spec fn radix_value(s: Seq<char>, base: nat) -> int
    decreases s.len(),
{
    if s.len() == 0 {
        0
    } else {
        base * radix_value(s.drop_last(), base) + hex_rank(s.last())
    }
}

/// Each digit counts `base` times what the next one does.
pub proof fn lemma_radix_of_joined(a: Seq<char>, b: Seq<char>, base: nat)
    ensures
        radix_value(a + b, base) == radix_value(a, base) * pow(base as int, b.len()) + radix_value(
            b,
            base,
        ),
    decreases b.len(),
{
    reveal(pow);
    if b.len() == 0 {
        assert(a + b =~= a);
        assert(pow(base as int, 0) == 1);
    } else {
        let c = b.drop_last();
        lemma_radix_of_joined(a, c, base);
        assert((a + b).drop_last() =~= a + c);
        let x = radix_value(a, base);
        let y = radix_value(c, base);
        let p = pow(base as int, c.len());
        let n = base as int;
        assert(pow(n, b.len()) == n * p);
        assert(n * (x * p + y) == x * (n * p) + n * y) by (nonlinear_arith);
    }
}

/// A number is written with digits below its base that stand for it, without a zero in front where
/// it has more than one.
pub proof fn lemma_digits_written(n: nat, base: nat)
    requires
        2 <= base <= 16,
    ensures
        radix_value(digits(n, base), base) == n,
        digits(n, base).len() > 0,
        digits(n, base).len() > 1 ==> digits(n, base)[0] != '0',
        forall|i: int|
            0 <= i < digits(n, base).len() ==> is_hex_digit(#[trigger] digits(n, base)[i])
                && hex_rank(digits(n, base)[i]) < base,
    decreases n,
{
    let s = digits(n, base);
    if n < base {
        assert(s =~= seq![digit_char(n)]);
        assert(s.drop_last() =~= Seq::empty());
        assert(radix_value(Seq::empty(), base) == 0);
        assert(base * 0 == 0);
        assert(hex_rank(digit_char(n)) == n);
        assert(is_hex_digit(s[0]));
    } else {
        vstd::arithmetic::div_mod::lemma_div_decreases(n as int, base as int);
        vstd::arithmetic::div_mod::lemma_mod_bound(n as int, base as int);
        vstd::arithmetic::div_mod::lemma_fundamental_div_mod(n as int, base as int);
        let q = n / base;
        let d = n % base;
        lemma_digits_written(q, base);
        let t = digits(q, base);
        assert(s.drop_last() =~= t);
        assert(hex_rank(digit_char(d)) == d);
        assert(is_hex_digit(digit_char(d)));
        assert forall|i: int| 0 <= i < s.len() implies is_hex_digit(#[trigger] s[i]) && hex_rank(
            s[i],
        ) < base by {
            if i < t.len() {
                assert(s[i] == t[i]);
            }
        }
        assert(s[0] == t[0]);
        if t.len() == 1 {
            assert(t.drop_last() =~= Seq::empty());
            assert(radix_value(t, base) == base * radix_value(Seq::empty(), base) + hex_rank(t[0]));
            assert(radix_value(Seq::empty(), base) == 0);
            assert(base * 0 == 0);
            if t[0] == '0' {
                assert(q == 0);
                assert(n < base) by (nonlinear_arith)
                    requires
                        n == base * q + d,
                        q == 0,
                        d < base,
                ;
            }
        }
    }
}

/// A padded number has as many characters as it is padded to, or as its digits are if these are
/// more, and ends with them; zeros stand in front of them.
pub proof fn lemma_padding(n: nat, width: nat)
    ensures
        ({
            let plain = decimal(n);
            let s = padded_decimal(n, width);
            let zeros = s.len() - plain.len();
            &&& s.len() == if plain.len() < width {
                width
            } else {
                plain.len()
            }
            &&& s.skip(zeros) == plain
            &&& forall|i: int| 0 <= i < zeros ==> #[trigger] s[i] == '0'
        }),
{
    let plain = decimal(n);
    let s = padded_decimal(n, width);
    assert(s.skip(s.len() - plain.len()) =~= plain);
}


} // verus!
