//! Character-level text: white space, trimming, splitting on a separator,
//! and decimal integers read and written the way the standard library's
//! `str::trim`, `str::split`, `str::parse` and `{:0N}` formatting do.
use vstd::prelude::*;

verus! {

// ---------------------------------------------------------------------------
// Definitions.
// ---------------------------------------------------------------------------

/// The Unicode `White_Space` property, which `char::is_whitespace` and
/// `str::trim` go by.
pub open spec fn is_white_space(c: char) -> bool {
    let u = c as u32;
    (9 <= u <= 13) || u == 32 || u == 0x85 || u == 0xa0 || u == 0x1680 || (0x2000 <= u <= 0x200a)
        || u == 0x2028 || u == 0x2029 || u == 0x202f || u == 0x205f || u == 0x3000
}

/// `s` without its leading white space.
pub open spec fn trim_start(s: Seq<char>) -> Seq<char>
    decreases s.len(),
{
    if s.len() > 0 && is_white_space(s[0]) {
        trim_start(s.drop_first())
    } else {
        s
    }
}

/// `s` without its trailing white space.
pub open spec fn trim_end(s: Seq<char>) -> Seq<char>
    decreases s.len(),
{
    if s.len() > 0 && is_white_space(s.last()) {
        trim_end(s.drop_last())
    } else {
        s
    }
}

/// `s` without white space at either end.
pub open spec fn trim(s: Seq<char>) -> Seq<char> {
    trim_end(trim_start(s))
}

/// The pieces of `s` between occurrences of `sep`: one more piece than there
/// are separators, empty pieces included.
pub open spec fn split(s: Seq<char>, sep: char) -> Seq<Seq<char>>
    decreases s.len(),
{
    if s.len() == 0 {
        seq![Seq::<char>::empty()]
    } else {
        let before = split(s.drop_last(), sep);
        if s.last() == sep {
            before.push(Seq::<char>::empty())
        } else {
            before.update(before.len() - 1, before.last().push(s.last()))
        }
    }
}

pub open spec fn is_digit(c: char) -> bool {
    48 <= (c as u32) <= 57
}

pub open spec fn all_digits(s: Seq<char>) -> bool {
    forall|i: int| 0 <= i < s.len() ==> is_digit(#[trigger] s[i])
}

pub open spec fn digit_value(c: char) -> int {
    (c as u32) - 48
}

/// The number a string of decimal digits spells.
pub open spec fn decimal_value(s: Seq<char>) -> int
    decreases s.len(),
{
    if s.len() == 0 {
        0
    } else {
        10 * decimal_value(s.drop_last()) + digit_value(s.last())
    }
}

/// Why `str::parse` refused an integer, as `IntErrorKind` tells it.
#[derive(Clone, Copy, PartialEq, Eq, Debug, Structural)]
pub enum IntErrorKind {
    Empty,
    InvalidDigit,
    PosOverflow,
    NegOverflow,
}

/// `i` is where the leading run of digits of `s` ends.
pub open spec fn digit_run_end(s: Seq<char>, i: int) -> bool {
    &&& 0 <= i <= s.len()
    &&& all_digits(s.take(i))
    &&& (i == s.len() || !is_digit(s[i]))
}

/// The length of the leading run of digits of `s`.
pub open spec fn digit_run(s: Seq<char>) -> int {
    choose|i: int| digit_run_end(s, i)
}

/// What `str::parse` makes of `s` for an integer type whose values are
/// `lo..=hi`: an optional `+` (or, for a signed type, `-`), then ASCII
/// digits. Digits are taken from the left, so a value that has already left
/// the range before the first stray character is an overflow, and a stray
/// character met first is an invalid digit.
pub open spec fn parsed_integer(s: Seq<char>, signed: bool, lo: int, hi: int) -> Result<
    int,
    IntErrorKind,
> {
    if s.len() == 0 {
        Err(IntErrorKind::Empty)
    } else {
        let negative = signed && s[0] == '-';
        let body = if s[0] == '+' || negative {
            s.drop_first()
        } else {
            s
        };
        if body.len() == 0 {
            Err(IntErrorKind::InvalidDigit)
        } else {
            let run = digit_run(body);
            let v = decimal_value(body.take(run));
            if negative && -v < lo {
                Err(IntErrorKind::NegOverflow)
            } else if !negative && v > hi {
                Err(IntErrorKind::PosOverflow)
            } else if run < body.len() {
                Err(IntErrorKind::InvalidDigit)
            } else if negative {
                Ok(-v)
            } else {
                Ok(v)
            }
        }
    }
}

/// What `s.parse::<u32>()` gives.
pub open spec fn parsed_u32_result(s: Seq<char>) -> Result<u32, IntErrorKind> {
    match parsed_integer(s, false, 0, u32::MAX as int) {
        Ok(v) => Ok(v as u32),
        Err(e) => Err(e),
    }
}

/// What `s.parse::<i32>()` gives.
pub open spec fn parsed_i32_result(s: Seq<char>) -> Result<i32, IntErrorKind> {
    match parsed_integer(s, true, i32::MIN as int, i32::MAX as int) {
        Ok(v) => Ok(v as i32),
        Err(e) => Err(e),
    }
}

/// What `s.parse::<u32>().ok()` gives.
pub open spec fn parsed_u32(s: Seq<char>) -> Option<u32> {
    match parsed_u32_result(s) {
        Ok(v) => Some(v),
        Err(_) => None,
    }
}

/// What `s.parse::<i32>().ok()` gives.
pub open spec fn parsed_i32(s: Seq<char>) -> Option<i32> {
    match parsed_i32_result(s) {
        Ok(v) => Some(v),
        Err(_) => None,
    }
}

pub open spec fn digit_char(d: int) -> char {
    seq!['0', '1', '2', '3', '4', '5', '6', '7', '8', '9'][d]
}

/// The decimal digits of `n`, most significant first, without leading zeros.
pub open spec fn decimal_digits(n: nat) -> Seq<char>
    decreases n,
{
    if n < 10 {
        seq![digit_char(n as int)]
    } else {
        decimal_digits(n / 10).push(digit_char((n % 10) as int))
    }
}

/// `s` with zeros in front up to `width` characters.
pub open spec fn zero_padded(s: Seq<char>, width: int) -> Seq<char> {
    if s.len() >= width {
        s
    } else {
        Seq::new((width - s.len()) as nat, |i: int| '0') + s
    }
}

/// `n` as `format!("{:0width$}")` writes it: the sign, then the digits
/// zero-padded so that sign and digits fill `width` characters.
pub open spec fn formatted_integer(n: int, width: int) -> Seq<char> {
    if n < 0 {
        seq!['-'] + zero_padded(decimal_digits((-n) as nat), width - 1)
    } else {
        zero_padded(decimal_digits(n as nat), width)
    }
}

// ---------------------------------------------------------------------------
// Reading.
// ---------------------------------------------------------------------------

/// The characters of `s`.
pub fn chars_of(s: &str) -> (r: Vec<char>)
    ensures
        r@ == s@,
{
    let n = s.unicode_len();
    let mut out: Vec<char> = Vec::new();
    let mut i: usize = 0;
    while i < n
        invariant
            n == s@.len(),
            i <= n,
            out@ == s@.take(i as int),
        decreases n - i,
    {
        out.push(s.get_char(i));
        i += 1;
        assert(out@ =~= s@.take(i as int));
    }
    assert(out@ =~= s@);
    out
}

/// Is `c` white space?
pub fn white_space(c: char) -> (r: bool)
    ensures
        r == is_white_space(c),
{
    let u = c as u32;
    (9 <= u && u <= 13) || u == 32 || u == 0x85 || u == 0xa0 || u == 0x1680 || (0x2000 <= u && u
        <= 0x200a) || u == 0x2028 || u == 0x2029 || u == 0x202f || u == 0x205f || u == 0x3000
}

proof fn lemma_trim_start_skip(s: Seq<char>, i: int)
    requires
        0 <= i < s.len(),
        is_white_space(s[i]),
    ensures
        trim_start(s.skip(i)) == trim_start(s.skip(i + 1)),
{
    assert(s.skip(i).drop_first() =~= s.skip(i + 1));
}

proof fn lemma_trim_end_take(s: Seq<char>, j: int)
    requires
        0 < j <= s.len(),
        is_white_space(s[j - 1]),
    ensures
        trim_end(s.take(j)) == trim_end(s.take(j - 1)),
{
    assert(s.take(j).drop_last() =~= s.take(j - 1));
}

/// `s` without white space at either end.
pub fn trimmed(s: &Vec<char>) -> (r: Vec<char>)
    ensures
        r@ == trim(s@),
{
    let n = s.len();
    let mut i: usize = 0;
    assert(s@.skip(0) =~= s@);
    while i < n && white_space(s[i])
        invariant
            n == s@.len(),
            i <= n,
            trim_start(s@) == trim_start(s@.skip(i as int)),
        decreases n - i,
    {
        proof {
            lemma_trim_start_skip(s@, i as int);
        }
        i += 1;
    }
    let ghost start = s@.skip(i as int);
    assert(trim_start(s@) == start);
    let mut j: usize = n;
    assert(start.take(start.len() as int) =~= start);
    while j > i && white_space(s[j - 1])
        invariant
            n == s@.len(),
            i <= j <= n,
            start == s@.skip(i as int),
            trim_end(start) == trim_end(start.take(j - i)),
        decreases j,
    {
        proof {
            lemma_trim_end_take(start, j - i);
        }
        j -= 1;
    }
    let mut out: Vec<char> = Vec::new();
    let mut k: usize = i;
    while k < j
        invariant
            n == s@.len(),
            i <= k <= j <= n,
            out@ == s@.subrange(i as int, k as int),
        decreases j - k,
    {
        out.push(s[k]);
        k += 1;
        assert(out@ =~= s@.subrange(i as int, k as int));
    }
    assert(out@ =~= start.take(j - i));
    out
}

/// The pieces of `s` between occurrences of `sep`.
pub fn split_on(s: &Vec<char>, sep: char) -> (r: Vec<Vec<char>>)
    ensures
        r@.len() == split(s@, sep).len(),
        forall|k: int| 0 <= k < r@.len() ==> #[trigger] r@[k]@ == split(s@, sep)[k],
{
    let n = s.len();
    let mut parts: Vec<Vec<char>> = Vec::new();
    let mut current: Vec<char> = Vec::new();
    let mut i: usize = 0;
    assert(s@.take(0) =~= Seq::<char>::empty());
    while i < n
        invariant
            n == s@.len(),
            i <= n,
            parts@.len() + 1 == split(s@.take(i as int), sep).len(),
            forall|k: int|
                0 <= k < parts@.len() ==> #[trigger] parts@[k]@ == split(s@.take(i as int), sep)[k],
            current@ == split(s@.take(i as int), sep).last(),
        decreases n - i,
    {
        let c = s[i];
        assert(s@.take(i + 1).drop_last() =~= s@.take(i as int));
        if c == sep {
            parts.push(current);
            current = Vec::new();
        } else {
            current.push(c);
        }
        i += 1;
    }
    assert(s@.take(n as int) =~= s@);
    parts.push(current);
    parts
}

/// Where the leading run of digits from `from` on ends, and the number it
/// spells, saturated at 2^32.
fn leading_digits(s: &Vec<char>, from: usize) -> (r: (usize, u64))
    requires
        from <= s@.len(),
    ensures
        from <= r.0 <= s@.len(),
        digit_run_end(s@.skip(from as int), r.0 - from),
        r.1 as int == if decimal_value(s@.skip(from as int).take(r.0 - from)) < 0x1_0000_0000 {
            decimal_value(s@.skip(from as int).take(r.0 - from))
        } else {
            0x1_0000_0000
        },
{
    let n = s.len();
    let ghost body = s@.skip(from as int);
    let mut acc: u64 = 0;
    let mut i: usize = from;
    assert(body.take(0) =~= Seq::<char>::empty());
    while i < n && is_ascii_digit(s[i])
        invariant
            from <= i <= n,
            n == s@.len(),
            body == s@.skip(from as int),
            all_digits(body.take(i - from)),
            acc as int == if decimal_value(body.take(i - from)) < 0x1_0000_0000 {
                decimal_value(body.take(i - from))
            } else {
                0x1_0000_0000
            },
            decimal_value(body.take(i - from)) >= 0,
        decreases n - i,
    {
        let c = s[i];
        assert(body[i - from] == c);
        let d = (c as u32 - 48) as u64;
        assert(body.take(i - from + 1).drop_last() =~= body.take(i - from));
        assert(body.take(i - from + 1).last() == c);
        let next = acc * 10 + d;
        acc = if next < 0x1_0000_0000 {
            next
        } else {
            0x1_0000_0000
        };
        assert forall|k: int| 0 <= k < body.take(i - from + 1).len() implies is_digit(
            #[trigger] body.take(i - from + 1)[k],
        ) by {
            if k < i - from {
                assert(body.take(i - from + 1)[k] == body.take(i - from)[k]);
            }
        }
        i += 1;
    }
    assert(i < n ==> body[i - from] == s@[i as int]);
    (i, acc)
}

fn is_ascii_digit(c: char) -> (r: bool)
    ensures
        r == is_digit(c),
{
    let u = c as u32;
    48 <= u && u <= 57
}

/// Two ends of the leading run of digits are the same end.
proof fn lemma_digit_run_unique(s: Seq<char>, i: int)
    requires
        digit_run_end(s, i),
    ensures
        digit_run(s) == i,
{
    let j = digit_run(s);
    assert(digit_run_end(s, j));
    if j < i {
        assert(s.take(i)[j] == s[j]);
    } else if i < j {
        assert(s.take(j)[i] == s[i]);
    }
}

/// `s.parse::<u32>()` on the characters of `s`.
pub fn parse_u32_result(s: &Vec<char>) -> (r: Result<u32, IntErrorKind>)
    ensures
        r == parsed_u32_result(s@),
{
    if s.len() == 0 {
        return Err(IntErrorKind::Empty);
    }
    let from: usize = if s[0] == '+' {
        1
    } else {
        0
    };
    assert(from == 1 ==> s@.skip(1) =~= s@.drop_first());
    assert(from == 0 ==> s@.skip(0) =~= s@);
    if from == s.len() {
        return Err(IntErrorKind::InvalidDigit);
    }
    let (end, v) = leading_digits(s, from);
    proof {
        lemma_digit_run_unique(s@.skip(from as int), end - from);
    }
    if v > 0xffff_ffff {
        Err(IntErrorKind::PosOverflow)
    } else if end < s.len() {
        Err(IntErrorKind::InvalidDigit)
    } else {
        assert(s@.skip(from as int).take(end - from) =~= s@.skip(from as int));
        Ok(v as u32)
    }
}

/// `s.parse::<i32>()` on the characters of `s`.
pub fn parse_i32_result(s: &Vec<char>) -> (r: Result<i32, IntErrorKind>)
    ensures
        r == parsed_i32_result(s@),
{
    if s.len() == 0 {
        return Err(IntErrorKind::Empty);
    }
    let negative = s[0] == '-';
    let from: usize = if s[0] == '+' || negative {
        1
    } else {
        0
    };
    assert(from == 1 ==> s@.skip(1) =~= s@.drop_first());
    assert(from == 0 ==> s@.skip(0) =~= s@);
    if from == s.len() {
        return Err(IntErrorKind::InvalidDigit);
    }
    let (end, v) = leading_digits(s, from);
    proof {
        lemma_digit_run_unique(s@.skip(from as int), end - from);
    }
    if negative && v > 0x8000_0000 {
        Err(IntErrorKind::NegOverflow)
    } else if !negative && v > 0x7fff_ffff {
        Err(IntErrorKind::PosOverflow)
    } else if end < s.len() {
        Err(IntErrorKind::InvalidDigit)
    } else {
        assert(s@.skip(from as int).take(end - from) =~= s@.skip(from as int));
        if negative {
            Ok((0 - v as i64) as i32)
        } else {
            Ok(v as i32)
        }
    }
}

/// `s.parse::<u32>().ok()` on the characters of `s`.
pub fn parse_u32(s: &Vec<char>) -> (r: Option<u32>)
    ensures
        r == parsed_u32(s@),
{
    match parse_u32_result(s) {
        Ok(v) => Some(v),
        Err(_) => None,
    }
}

/// `s.parse::<i32>().ok()` on the characters of `s`.
pub fn parse_i32(s: &Vec<char>) -> (r: Option<i32>)
    ensures
        r == parsed_i32(s@),
{
    match parse_i32_result(s) {
        Ok(v) => Some(v),
        Err(_) => None,
    }
}

// ---------------------------------------------------------------------------
// Writing.
// ---------------------------------------------------------------------------

/// Appends the decimal digits of `n`.
fn push_digits(out: &mut Vec<char>, n: u64)
    ensures
        final(out)@ == old(out)@ + decimal_digits(n as nat),
    decreases n,
{
    if n >= 10 {
        push_digits(out, n / 10);
    }
    let c = match n % 10 {
        0 => '0',
        1 => '1',
        2 => '2',
        3 => '3',
        4 => '4',
        5 => '5',
        6 => '6',
        7 => '7',
        8 => '8',
        _ => '9',
    };
    assert(c == digit_char((n % 10) as int));
    out.push(c);
    assert(decimal_digits(n as nat) == if n < 10 {
        seq![digit_char(n as int)]
    } else {
        decimal_digits((n / 10) as nat).push(digit_char((n % 10) as int))
    });
}

/// `n` written as `format!("{:0width$}", n)` writes it.
pub fn format_integer(n: i64, width: usize) -> (r: Vec<char>)
    ensures
        r@ == formatted_integer(n as int, width as int),
{
    let mut out: Vec<char> = Vec::new();
    let magnitude: u64 = if n < 0 {
        (0 - (n as i128)) as u64
    } else {
        n as u64
    };
    let mut digits: Vec<char> = Vec::new();
    push_digits(&mut digits, magnitude);
    assert(digits@ =~= decimal_digits(magnitude as nat));
    let pad_to: usize = if n < 0 {
        out.push('-');
        if width > 0 {
            width - 1
        } else {
            0
        }
    } else {
        width
    };
    let ghost lead = out@;
    let mut k: usize = digits.len();
    while k < pad_to
        invariant
            digits.len() <= k,
            k <= pad_to || k == digits.len(),
            out@ == lead + Seq::new((k - digits.len()) as nat, |i: int| '0'),
        decreases pad_to - k,
    {
        out.push('0');
        k += 1;
        assert(out@ =~= lead + Seq::new((k - digits.len()) as nat, |i: int| '0'));
    }
    let ghost padded = out@;
    let mut j: usize = 0;
    while j < digits.len()
        invariant
            j <= digits.len(),
            out@ == padded + digits@.take(j as int),
        decreases digits.len() - j,
    {
        out.push(digits[j]);
        j += 1;
        assert(out@ =~= padded + digits@.take(j as int));
    }
    assert(digits@.take(digits.len() as int) =~= digits@);
    proof {
        if n < 0 {
            assert(lead =~= seq!['-']);
            assert((-(n as int)) as nat == magnitude as nat);
            if digits@.len() >= width - 1 {
                assert(padded =~= lead);
            }
            assert(out@ =~= formatted_integer(n as int, width as int));
        } else {
            assert(lead =~= Seq::<char>::empty());
            if digits@.len() >= width {
                assert(padded =~= lead);
            }
            assert(out@ =~= formatted_integer(n as int, width as int));
        }
    }
    out
}

/// The characters of `chars` as a `String`.
pub fn string_of(chars: &Vec<char>) -> (r: String)
    ensures
        r@ == chars@,
{
    let mut out = String::new();
    let mut i: usize = 0;
    while i < chars.len()
        invariant
            i <= chars.len(),
            out@ == chars@.take(i as int),
        decreases chars.len() - i,
    {
        push_char(&mut out, chars[i]);
        i += 1;
        assert(out@ =~= chars@.take(i as int));
    }
    assert(chars@.take(chars.len() as int) =~= chars@);
    out
}

/// Trusted: calls `String::push`, which std documents as appending the
/// character to the end of the string; the contract claims exactly that of
/// the text.
#[verifier::external_body]
fn push_char(s: &mut String, c: char)
    ensures
        final(s)@ == old(s)@.push(c),
{
    s.push(c);
}

// ---------------------------------------------------------------------------
// Facts about written numbers and split text.
// ---------------------------------------------------------------------------

/// The digits of `n` are digits, and spell `n`.
pub proof fn lemma_decimal_digits(n: nat)
    ensures
        decimal_digits(n).len() >= 1,
        all_digits(decimal_digits(n)),
        decimal_value(decimal_digits(n)) == n,
    decreases n,
{
    lemma_digit_char((n % 10) as int);
    let s = decimal_digits(n);
    if n >= 10 {
        lemma_decimal_digits(n / 10);
        assert(s.drop_last() =~= decimal_digits(n / 10));
        assert(s.last() == digit_char((n % 10) as int));
        assert(decimal_value(s) == 10 * (n / 10) + n % 10);
    } else {
        assert(s.drop_last() =~= Seq::<char>::empty());
        assert(decimal_value(Seq::<char>::empty()) == 0);
        assert(decimal_value(s) == n);
    }
    assert forall|i: int| 0 <= i < s.len() implies is_digit(#[trigger] s[i]) by {
        if i < s.len() - 1 {
            assert(s[i] == s.drop_last()[i]);
        }
    }
}

/// The character of a digit is a digit of that value.
proof fn lemma_digit_char(d: int)
    requires
        0 <= d <= 9,
    ensures
        is_digit(digit_char(d)),
        digit_value(digit_char(d)) == d,
{
    assert(d == 0 || d == 1 || d == 2 || d == 3 || d == 4 || d == 5 || d == 6 || d == 7 || d == 8
        || d == 9);
}

/// A run of zeros spells nothing.
proof fn lemma_zeros_value(k: nat)
    ensures
        decimal_value(Seq::new(k, |i: int| '0')) == 0,
    decreases k,
{
    if k > 0 {
        lemma_zeros_value((k - 1) as nat);
        assert(Seq::new(k, |i: int| '0').drop_last() =~= Seq::new((k - 1) as nat, |i: int| '0'));
    }
}

/// Leading zeros do not change the number.
proof fn lemma_leading_zeros(k: nat, s: Seq<char>)
    ensures
        decimal_value(Seq::new(k, |i: int| '0') + s) == decimal_value(s),
    decreases s.len(),
{
    let z = Seq::new(k, |i: int| '0');
    if s.len() == 0 {
        assert(z + s =~= z);
        lemma_zeros_value(k);
    } else {
        lemma_leading_zeros(k, s.drop_last());
        assert((z + s).drop_last() =~= z + s.drop_last());
        assert((z + s).last() == s.last());
    }
}

/// Zero padding keeps a string of digits a string of digits spelling the
/// same number.
pub proof fn lemma_zero_padded(n: nat, width: int)
    ensures
        zero_padded(decimal_digits(n), width).len() >= 1,
        all_digits(zero_padded(decimal_digits(n), width)),
        decimal_value(zero_padded(decimal_digits(n), width)) == n,
{
    lemma_decimal_digits(n);
    let d = decimal_digits(n);
    if d.len() < width {
        let k = (width - d.len()) as nat;
        lemma_leading_zeros(k, d);
        let p = Seq::new(k, |i: int| '0') + d;
        assert forall|i: int| 0 <= i < p.len() implies is_digit(#[trigger] p[i]) by {
            if i >= k {
                assert(p[i] == d[i - k]);
            }
        }
    }
}

/// A string of digits is read as the number it spells, whenever that
/// number is in range.
pub proof fn lemma_parse_digits(s: Seq<char>, signed: bool, lo: int, hi: int)
    requires
        s.len() >= 1,
        all_digits(s),
        lo <= decimal_value(s) <= hi,
    ensures
        parsed_integer(s, signed, lo, hi) == Ok::<int, IntErrorKind>(decimal_value(s)),
{
    lemma_digit_is_plain(s[0]);
    assert(digit_run_end(s, s.len() as int)) by {
        assert(s.take(s.len() as int) =~= s);
    }
    lemma_digit_run_unique(s, s.len() as int);
    assert(s.take(s.len() as int) =~= s);
}

/// Text that neither starts nor ends with white space is its own trim.
pub proof fn lemma_trim_unchanged(s: Seq<char>)
    requires
        s.len() > 0,
        !is_white_space(s[0]),
        !is_white_space(s.last()),
    ensures
        trim(s) == s,
{
}

/// Digits are not white space, and not a sign.
pub proof fn lemma_digit_is_plain(c: char)
    requires
        is_digit(c),
    ensures
        !is_white_space(c),
        c != '-',
        c != '+',
{
}

/// Text without the separator is one piece.
pub proof fn lemma_split_single(s: Seq<char>, sep: char)
    requires
        forall|i: int| 0 <= i < s.len() ==> s[i] != sep,
    ensures
        split(s, sep) == seq![s],
    decreases s.len(),
{
    if s.len() > 0 {
        lemma_split_single(s.drop_last(), sep);
        assert(s.drop_last().push(s.last()) =~= s);
        assert(s[s.len() - 1] != sep);
        let before = split(s.drop_last(), sep);
        assert(before.len() == 1 && before.last() == s.drop_last());
        assert(seq![s.drop_last()].update(0, s.drop_last().push(s.last())) =~= seq![s]);
    } else {
        assert(s =~= Seq::<char>::empty());
    }
}

/// A separator splits text into the pieces of what precedes it followed by
/// the pieces of what follows it.
pub proof fn lemma_split_join(a: Seq<char>, sep: char, b: Seq<char>)
    ensures
        split(a + seq![sep] + b, sep) == split(a, sep) + split(b, sep),
    decreases b.len(),
{
    let x = a + seq![sep];
    if b.len() == 0 {
        assert(a + seq![sep] + b =~= x);
        assert(x.drop_last() =~= a);
        assert(split(a, sep).push(Seq::<char>::empty()) =~= split(a, sep) + seq![Seq::<char>::empty()]);
    } else {
        lemma_split_join(a, sep, b.drop_last());
        assert((x + b).drop_last() =~= x + b.drop_last());
        assert((x + b).last() == b.last());
        lemma_split_nonempty(b.drop_last(), sep);
        let pa = split(a, sep);
        let pb = split(b.drop_last(), sep);
        if b.last() == sep {
            assert((pa + pb).push(Seq::<char>::empty()) =~= pa + pb.push(Seq::<char>::empty()));
        } else {
            assert((pa + pb).update((pa + pb).len() - 1, (pa + pb).last().push(b.last())) =~= pa
                + pb.update(pb.len() - 1, pb.last().push(b.last())));
        }
    }
}

/// Splitting always yields at least one piece.
pub proof fn lemma_split_nonempty(s: Seq<char>, sep: char)
    ensures
        split(s, sep).len() >= 1,
    decreases s.len(),
{
    if s.len() > 0 {
        lemma_split_nonempty(s.drop_last(), sep);
    }
}

} // verus!
