//! Text primitives: decimal numbers, trimming, searching and comparing.
use vstd::prelude::*;

verus! {

broadcast use vstd::string::group_string_axioms;

/// The decimal digit that stands for `d`.
pub open spec fn digit(d: nat) -> char {
    (48 + d) as char
}

/// The decimal numeral of `n`, without leading zeros.
pub open spec fn decimal(n: nat) -> Seq<char>
    decreases n,
{
    if n < 10 {
        seq![digit(n)]
    } else {
        decimal(n / 10).push(digit(n % 10))
    }
}

/// The characters of `s`, one element each.
pub fn to_chars(s: &str) -> (chars: Vec<char>)
    ensures
        chars@ == s@,
{
    let mut chars: Vec<char> = Vec::new();
    for c in it: s.chars()
        invariant
            chars@ == it.seq().take(it.index() as int),
            it.seq() == s@,
    {
        chars.push(c);
    }
    chars
}

fn digit_text(d: u8) -> (text: &'static str)
    requires
        d < 10,
    ensures
        text@ == seq![digit(d as nat)],
{
    proof {
        reveal_strlit("0");
        reveal_strlit("1");
        reveal_strlit("2");
        reveal_strlit("3");
        reveal_strlit("4");
        reveal_strlit("5");
        reveal_strlit("6");
        reveal_strlit("7");
        reveal_strlit("8");
        reveal_strlit("9");
    }
    match d {
        0 => "0",
        1 => "1",
        2 => "2",
        3 => "3",
        4 => "4",
        5 => "5",
        6 => "6",
        7 => "7",
        8 => "8",
        _ => "9",
    }
}

/// Appends the decimal numeral of `n` to `out`.
pub fn push_decimal(out: &mut String, n: u64)
    ensures
        final(out)@ == old(out)@ + decimal(n as nat),
    decreases n,
{
    if n >= 10 {
        push_decimal(out, n / 10);
    }
    out.append(digit_text((n % 10) as u8));
}

/// Whether `c` is an ASCII decimal digit.
pub open spec fn is_digit(c: char) -> bool {
    48 <= c as u32 <= 57
}

/// The number that the digits `s` stand for.
pub open spec fn digits_value(s: Seq<char>) -> nat
    decreases s.len(),
{
    if s.len() == 0 {
        0
    } else {
        digits_value(s.drop_last()) * 10 + (s.last() as u32 - 48) as nat
    }
}

/// The unsigned numeral `s` without its optional leading plus sign.
pub open spec fn unsigned_digits(s: Seq<char>) -> Seq<char> {
    if s.len() > 0 && s[0] == '+' {
        s.skip(1)
    } else {
        s
    }
}

/// The 64-bit number that `s` is the numeral of: an optional plus sign and at
/// least one digit, nothing else, with a value that fits.
pub open spec fn u64_of(s: Seq<char>) -> Option<u64> {
    let digits = unsigned_digits(s);
    if digits.len() > 0 && (forall|i: int| 0 <= i < digits.len() ==> is_digit(#[trigger] digits[i]))
        && digits_value(digits) <= u64::MAX {
        Some(digits_value(digits) as u64)
    } else {
        None
    }
}

/// Whether `c` has the Unicode `White_Space` property.
pub open spec fn is_white_space(c: char) -> bool {
    let u = c as u32;
    ||| 0x9 <= u <= 0xd
    ||| u == 0x20
    ||| u == 0x85
    ||| u == 0xa0
    ||| u == 0x1680
    ||| 0x2000 <= u <= 0x200a
    ||| 0x2028 <= u <= 0x2029
    ||| u == 0x202f
    ||| u == 0x205f
    ||| u == 0x3000
}

/// `s` without its leading white space.
pub open spec fn trim_start(s: Seq<char>) -> Seq<char>
    decreases s.len(),
{
    if s.len() > 0 && is_white_space(s[0]) {
        trim_start(s.skip(1))
    } else {
        s
    }
}

/// `s` without its trailing white space.
pub open spec fn trim_end(s: Seq<char>) -> Seq<char>
    decreases s.len(),
{
    if s.len() > 0 && is_white_space(s.last()) {
        trim_end(s.drop_last())
    } else {
        s
    }
}

/// `s` without leading and trailing white space.
pub open spec fn trim(s: Seq<char>) -> Seq<char> {
    trim_end(trim_start(s))
}

/// `c`, or the lower-case letter where `c` is an ASCII upper-case one.
pub open spec fn ascii_lower(c: char) -> u32 {
    if 65 <= c as u32 <= 90 {
        (c as u32 + 32) as u32
    } else {
        c as u32
    }
}

/// Whether `a` and `b` are the same text, upper and lower case of ASCII letters
/// taken as one.
pub open spec fn same_ignoring_ascii_case(a: Seq<char>, b: Seq<char>) -> bool {
    &&& a.len() == b.len()
    &&& forall|i: int| 0 <= i < a.len() ==> ascii_lower(#[trigger] a[i]) == ascii_lower(b[i])
}

fn white_space(c: char) -> (b: bool)
    ensures
        b == is_white_space(c),
{
    let u: u32 = c as u32;
    (0x9 <= u && u <= 0xd) || u == 0x20 || u == 0x85 || u == 0xa0 || u == 0x1680 || (0x2000 <= u
        && u <= 0x200a) || (0x2028 <= u && u <= 0x2029) || u == 0x202f || u == 0x205f || u
        == 0x3000
}

fn lower(c: char) -> (u: u32)
    ensures
        u == ascii_lower(c),
{
    let u: u32 = c as u32;
    if 65 <= u && u <= 90 {
        u + 32
    } else {
        u
    }
}

/// Whether `a` and `b` are the same text up to the case of ASCII letters.
pub fn eq_ignore_ascii_case(a: &str, b: &str) -> (eq: bool)
    ensures
        eq == same_ignoring_ascii_case(a@, b@),
{
    let a_chars = to_chars(a);
    let b_chars = to_chars(b);
    if a_chars.len() != b_chars.len() {
        return false;
    }
    let mut i: usize = 0;
    while i < a_chars.len()
        invariant
            i <= a_chars.len(),
            a_chars.len() == b_chars.len(),
            a_chars@ == a@,
            b_chars@ == b@,
            forall|j: int| 0 <= j < i ==> ascii_lower(#[trigger] a@[j]) == ascii_lower(b@[j]),
        decreases a_chars.len() - i,
    {
        if lower(a_chars[i]) != lower(b_chars[i]) {
            assert(ascii_lower(a@[i as int]) != ascii_lower(b@[i as int]));
            return false;
        }
        i += 1;
    }
    true
}

/// The part of `chars` from `from` on, trimmed and read as a number.
pub fn parse_trimmed_u64(chars: &Vec<char>, from: usize) -> (value: Option<u64>)
    requires
        from <= chars.len(),
    ensures
        value == u64_of(trim(chars@.skip(from as int))),
{
    let mut lo: usize = from;
    let mut hi: usize = chars.len();
    proof {
        assert(chars@.subrange(lo as int, hi as int) == chars@.skip(from as int));
    }
    while lo < hi && white_space(chars[lo])
        invariant
            from <= lo <= hi == chars.len(),
            trim_start(chars@.skip(from as int)) == trim_start(
                chars@.subrange(lo as int, hi as int),
            ),
        decreases hi - lo,
    {
        assert(chars@.subrange(lo as int, hi as int).skip(1) == chars@.subrange(
            lo + 1,
            hi as int,
        ));
        lo += 1;
    }
    let ghost text = trim_start(chars@.skip(from as int));
    assert(text == chars@.subrange(lo as int, hi as int));
    while lo < hi && white_space(chars[hi - 1])
        invariant
            lo <= hi <= chars.len(),
            trim_end(text) == trim_end(chars@.subrange(lo as int, hi as int)),
        decreases hi - lo,
    {
        assert(chars@.subrange(lo as int, hi as int).drop_last() == chars@.subrange(
            lo as int,
            hi - 1,
        ));
        hi -= 1;
    }
    assert(trim_end(text) == chars@.subrange(lo as int, hi as int));
    parse_u64(chars, lo, hi)
}

/// The part of `chars` from `lo` to `hi`, read as a number.
fn parse_u64(chars: &Vec<char>, lo: usize, hi: usize) -> (value: Option<u64>)
    requires
        lo <= hi <= chars.len(),
    ensures
        value == u64_of(chars@.subrange(lo as int, hi as int)),
{
    let ghost text = chars@.subrange(lo as int, hi as int);
    let ghost digits = unsigned_digits(text);
    let mut i: usize = lo;
    if lo < hi && chars[lo] == '+' {
        i = lo + 1;
    }
    assert(digits == chars@.subrange(i as int, hi as int));
    if i == hi {
        return None;
    }
    let start: usize = i;
    let mut value: u64 = 0;
    while i < hi
        invariant
            start <= i <= hi <= chars.len(),
            digits == chars@.subrange(start as int, hi as int),
            digits == unsigned_digits(text),
            text == chars@.subrange(lo as int, hi as int),
            forall|j: int| 0 <= j < i - start ==> is_digit(#[trigger] digits[j]),
            value == digits_value(digits.take(i - start)),
        decreases hi - i,
    {
        let u: u32 = chars[i] as u32;
        proof {
            assert(digits[i - start] == chars@[i as int]);
            assert(digits.take(i + 1 - start).drop_last() == digits.take(i - start));
        }
        if u < 48 || u > 57 {
            assert(!is_digit(digits[i - start]));
            return None;
        }
        let d: u64 = (u - 48) as u64;
        if value > (u64::MAX - d) / 10 {
            proof {
                lemma_digits_value_grows(digits, i + 1 - start);
            }
            return None;
        }
        value = value * 10 + d;
        i += 1;
    }
    assert(digits.take(hi - start) == digits);
    Some(value)
}

proof fn lemma_digits_value_grows(s: Seq<char>, n: int)
    requires
        0 <= n <= s.len(),
    ensures
        digits_value(s.take(n)) <= digits_value(s),
    decreases s.len() - n,
{
    if n == s.len() {
        assert(s.take(n) == s);
    } else {
        lemma_digits_value_grows(s, n + 1);
        assert(s.take(n + 1).drop_last() == s.take(n));
    }
}

/// The position of the first `wanted` in `chars`.
pub fn find(chars: &Vec<char>, wanted: char) -> (found: Option<usize>)
    ensures
        match found {
            Some(i) => i < chars.len() && chars@.index_of_first(wanted) == Some(i as int),
            None => chars@.index_of_first(wanted) is None,
        },
{
    proof {
        chars@.index_of_first_ensures(wanted);
    }
    let mut i: usize = 0;
    while i < chars.len()
        invariant
            i <= chars.len(),
            forall|j: int| 0 <= j < i ==> chars@[j] != wanted,
        decreases chars.len() - i,
    {
        if chars[i] == wanted {
            proof {
                chars@.index_of_first_ensures(wanted);
                assert(chars@.contains(chars@[i as int]));
            }
            return Some(i);
        }
        i += 1;
    }
    None
}

/// The position of the last `wanted` among the first `end` of `chars`.
pub fn rfind(chars: &Vec<char>, end: usize, wanted: char) -> (found: Option<usize>)
    requires
        end <= chars.len(),
    ensures
        match found {
            Some(i) => i < end && chars@.take(end as int).index_of_last(wanted) == Some(i as int),
            None => chars@.take(end as int).index_of_last(wanted) is None,
        },
{
    let ghost text = chars@.take(end as int);
    proof {
        text.index_of_last_ensures(wanted);
    }
    let mut i: usize = end;
    while i > 0
        invariant
            i <= end <= chars.len(),
            text == chars@.take(end as int),
            forall|j: int| i <= j < end ==> text[j] != wanted,
        decreases i,
    {
        if chars[i - 1] == wanted {
            proof {
                text.index_of_last_ensures(wanted);
                assert(text.contains(text[i - 1]));
            }
            return Some(i - 1);
        }
        i -= 1;
    }
    None
}

/// Whether `a` and `b` are the same text.
pub fn same_text(a: &str, b: &str) -> (eq: bool)
    ensures
        eq == (a@ == b@),
{
    let a_chars = to_chars(a);
    let b_chars = to_chars(b);
    if a_chars.len() != b_chars.len() {
        return false;
    }
    let mut i: usize = 0;
    while i < a_chars.len()
        invariant
            i <= a_chars.len(),
            a_chars.len() == b_chars.len(),
            a_chars@ == a@,
            b_chars@ == b@,
            forall|j: int| 0 <= j < i ==> a@[j] == b@[j],
        decreases a_chars.len() - i,
    {
        if a_chars[i] != b_chars[i] {
            return false;
        }
        i += 1;
    }
    assert(a@ =~= b@);
    true
}

/// Writing a number in decimal and reading it back gives the number.
pub proof fn law_decimal_round_trip(n: u64)
    ensures
        u64_of(decimal(n as nat)) == Some(n),
{
    lemma_decimal_digits(n as nat);
}

pub(crate) proof fn lemma_decimal_digits(n: nat)
    ensures
        decimal(n).len() > 0,
        forall|i: int| 0 <= i < decimal(n).len() ==> is_digit(#[trigger] decimal(n)[i]),
        digits_value(decimal(n)) == n,
    decreases n,
{
    if n < 10 {
        assert(seq![digit(n)].drop_last() == Seq::<char>::empty());
        assert(digits_value(seq![digit(n)].drop_last()) == 0);
    } else {
        lemma_decimal_digits(n / 10);
        assert(decimal(n).drop_last() == decimal(n / 10));
    }
}

/// The ten digits in order of their values.
pub open spec fn ten_digits() -> Seq<char> {
    seq!['0', '1', '2', '3', '4', '5', '6', '7', '8', '9']
}

/// Numerals are positional: a number below ten is written as the digit of that rank, and
/// ten times a number plus a digit as the numeral of the number with that digit behind it.
pub proof fn law_decimal_positional(n: nat, d: nat)
    requires
        d < 10,
    ensures
        decimal(d) == seq![ten_digits()[d as int]],
        n > 0 ==> decimal(10 * n + d) == decimal(n).push(ten_digits()[d as int]),
{
    assert(digit(d) == ten_digits()[d as int]);
    if n > 0 {
        assert((10 * n + d) / 10 == n && (10 * n + d) % 10 == d) by (nonlinear_arith)
            requires
                d < 10,
        ;
    }
}

/// The digits are the ten characters from `0` to `9`, and no others.
pub proof fn law_digits_are_ten(c: char)
    ensures
        is_digit(c) <==> ten_digits().contains(c),
{
    if is_digit(c) {
        assert(ten_digits()[c as int - 48] == c);
    }
}

proof fn lemma_leading_zero(s: Seq<char>)
    ensures
        digits_value(seq!['0'] + s) == digits_value(s),
    decreases s.len(),
{
    if s.len() == 0 {
        assert((seq!['0'] + s).drop_last() =~= Seq::<char>::empty());
        assert(digits_value(Seq::<char>::empty()) == 0);
    } else {
        lemma_leading_zero(s.drop_last());
        assert((seq!['0'] + s).drop_last() =~= seq!['0'] + s.drop_last());
    }
}

/// A text reads as a number exactly if it consists of digits, at least one, with or
/// without a plus sign before them: leading zeros and the plus sign change nothing, and
/// the numeral of a number reads as that number where it fits, and not at all where it
/// does not.
pub proof fn law_number_reading(s: Seq<char>, n: nat)
    ensures
        u64_of(Seq::<char>::empty()) is None,
        u64_of(seq!['+']) is None,
        u64_of(decimal(n)) == (if n <= u64::MAX {
            Some(n as u64)
        } else {
            None
        }),
        s.len() > 0 && s[0] != '+' ==> u64_of(seq!['+'] + s) == u64_of(s),
        s.len() > 0 && s[0] != '+' ==> u64_of(seq!['0'] + s) == u64_of(s),
        forall|i: int|
            #![trigger s[i]]
            0 <= i < s.len() && !ten_digits().contains(s[i]) && !(i == 0 && s[i] == '+')
                ==> u64_of(s) is None,
        u64_of(seq!['+', '+'] + s) is None,
        u64_of(seq!['0', '+'] + s) is None,
{
    assert(Seq::<char>::empty().len() == 0);
    assert(seq!['+'].skip(1).len() == 0);
    lemma_decimal_digits(n);
    if s.len() > 0 && s[0] != '+' {
        assert((seq!['+'] + s).skip(1) =~= s);
        lemma_leading_zero(s);
        let t = seq!['0'] + s;
        if forall|i: int| 0 <= i < s.len() ==> is_digit(#[trigger] s[i]) {
            assert forall|i: int| 0 <= i < t.len() implies is_digit(#[trigger] t[i]) by {
                if i > 0 {
                    assert(t[i] == s[i - 1]);
                }
            }
        } else {
            let i = choose|i: int| 0 <= i < s.len() && !is_digit(#[trigger] s[i]);
            assert(t[i + 1] == s[i]);
            assert(!is_digit(t[i + 1]));
        }
    }
    assert forall|i: int|
        #![trigger s[i]]
        0 <= i < s.len() && !ten_digits().contains(s[i]) && !(i == 0 && s[i]
            == '+') implies u64_of(s) is None by {
        law_digits_are_ten(s[i]);
        let digits = unsigned_digits(s);
        if s[0] == '+' {
            assert(digits[i - 1] == s[i]);
            assert(!is_digit(digits[i - 1]));
        } else {
            assert(!is_digit(digits[i]));
        }
    }
    let pp = seq!['+', '+'] + s;
    assert(unsigned_digits(pp)[0] == '+');
    assert(!is_digit(unsigned_digits(pp)[0]));
    let zp = seq!['0', '+'] + s;
    assert(unsigned_digits(zp)[1] == '+');
    assert(!is_digit(unsigned_digits(zp)[1]));
}

/// White space is what Unicode calls so.
pub proof fn law_white_space(c: char)
    ensures
        is_white_space(c) <==> seq![
            '\t',
            '\n',
            '\u{b}',
            '\u{c}',
            '\r',
            ' ',
            '\u{85}',
            '\u{a0}',
            '\u{1680}',
            '\u{2000}',
            '\u{2001}',
            '\u{2002}',
            '\u{2003}',
            '\u{2004}',
            '\u{2005}',
            '\u{2006}',
            '\u{2007}',
            '\u{2008}',
            '\u{2009}',
            '\u{200a}',
            '\u{2028}',
            '\u{2029}',
            '\u{202f}',
            '\u{205f}',
            '\u{3000}',
        ].contains(c),
{
    let all = seq![
        '\t',
        '\n',
        '\u{b}',
        '\u{c}',
        '\r',
        ' ',
        '\u{85}',
        '\u{a0}',
        '\u{1680}',
        '\u{2000}',
        '\u{2001}',
        '\u{2002}',
        '\u{2003}',
        '\u{2004}',
        '\u{2005}',
        '\u{2006}',
        '\u{2007}',
        '\u{2008}',
        '\u{2009}',
        '\u{200a}',
        '\u{2028}',
        '\u{2029}',
        '\u{202f}',
        '\u{205f}',
        '\u{3000}',
    ];
    if is_white_space(c) {
        let u = c as int;
        let i: int = if u <= 0xd {
            u - 9
        } else if u == 0x20 {
            5
        } else if u == 0x85 {
            6
        } else if u == 0xa0 {
            7
        } else if u == 0x1680 {
            8
        } else if u <= 0x200a {
            9 + u - 0x2000
        } else if u <= 0x2029 {
            20 + u - 0x2028
        } else if u == 0x202f {
            22
        } else if u == 0x205f {
            23
        } else {
            24
        };
        assert(all[i] == c);
    }
}

/// Whether `s` is white space alone.
pub open spec fn blank(s: Seq<char>) -> bool {
    forall|i: int| 0 <= i < s.len() ==> is_white_space(#[trigger] s[i])
}

/// Trimming takes white space from both ends and stops at the first other character: what
/// is left of `before`, `kept` and `behind` is `kept`, where the outer two are white space
/// and `kept` neither starts nor ends with any.
pub proof fn law_trim(before: Seq<char>, kept: Seq<char>, behind: Seq<char>)
    requires
        blank(before),
        blank(behind),
        kept.len() > 0 ==> !is_white_space(kept[0]) && !is_white_space(kept.last()),
    ensures
        trim(before + kept + behind) == kept,
{
    if kept.len() == 0 {
        let all = before + kept + behind;
        assert(blank(all)) by {
            assert forall|i: int| 0 <= i < all.len() implies is_white_space(#[trigger] all[i]) by {
                if i < before.len() {
                    assert(all[i] == before[i]);
                } else {
                    assert(all[i] == behind[i - before.len()]);
                }
            }
        }
        lemma_trim_start(all, Seq::<char>::empty());
        assert(all + Seq::<char>::empty() =~= all);
        assert(trim(all) =~= kept);
    } else {
        lemma_trim_start(before, kept + behind);
        assert(before + kept + behind =~= before + (kept + behind));
        lemma_trim_end(kept, behind);
    }
}

proof fn lemma_trim_start(before: Seq<char>, rest: Seq<char>)
    requires
        blank(before),
        rest.len() > 0 ==> !is_white_space(rest[0]),
    ensures
        trim_start(before + rest) == rest,
    decreases before.len(),
{
    if before.len() == 0 {
        assert(before + rest =~= rest);
    } else {
        assert(is_white_space(before[0]));
        assert((before + rest).skip(1) =~= before.skip(1) + rest);
        assert forall|i: int| 0 <= i < before.skip(1).len() implies is_white_space(
            #[trigger] before.skip(1)[i],
        ) by {
            assert(before.skip(1)[i] == before[i + 1]);
        }
        lemma_trim_start(before.skip(1), rest);
    }
}

proof fn lemma_trim_end(rest: Seq<char>, behind: Seq<char>)
    requires
        blank(behind),
        rest.len() > 0 ==> !is_white_space(rest.last()),
    ensures
        trim_end(rest + behind) == rest,
    decreases behind.len(),
{
    if behind.len() == 0 {
        assert(rest + behind =~= rest);
    } else {
        assert(is_white_space(behind[behind.len() - 1]));
        assert((rest + behind).drop_last() =~= rest + behind.drop_last());
        assert forall|i: int| 0 <= i < behind.drop_last().len() implies is_white_space(
            #[trigger] behind.drop_last()[i],
        ) by {
            assert(behind.drop_last()[i] == behind[i]);
        }
        lemma_trim_end(rest, behind.drop_last());
    }
}

/// Two texts are the same up to the case of ASCII letters exactly if they are as long as
/// each other and at every place have the same character, or the capital and the small
/// form of one of the letters from `A` to `Z`.
pub proof fn law_same_ignoring_case(a: Seq<char>, b: Seq<char>)
    ensures
        same_ignoring_ascii_case(a, b) <==> a.len() == b.len() && forall|i: int|
            0 <= i < a.len() ==> same_letter(#[trigger] a[i], b[i]),
{
    if same_ignoring_ascii_case(a, b) {
        assert forall|i: int| 0 <= i < a.len() implies same_letter(#[trigger] a[i], b[i]) by {
            assert(ascii_lower(a[i]) == ascii_lower(b[i]));
            lemma_same_letter(a[i], b[i]);
        }
    }
    if a.len() == b.len() && forall|i: int|
        0 <= i < a.len() ==> same_letter(#[trigger] a[i], b[i]) {
        assert forall|i: int| 0 <= i < a.len() implies ascii_lower(#[trigger] a[i]) == ascii_lower(
            b[i],
        ) by {
            assert(same_letter(a[i], b[i]));
            lemma_same_letter(a[i], b[i]);
        }
    }
}

proof fn lemma_same_letter(x: char, y: char)
    ensures
        same_letter(x, y) <==> ascii_lower(x) == ascii_lower(y),
{
}

/// Whether `x` and `y` are the same character, or the capital and the small form of one
/// of the letters from `A` to `Z`.
pub open spec fn same_letter(x: char, y: char) -> bool {
    ||| x == y
    ||| 'A' as int <= x as int <= 'Z' as int && y as int - x as int == 'a' as int - 'A' as int
    ||| 'A' as int <= y as int <= 'Z' as int && x as int - y as int == 'a' as int - 'A' as int
}

} // verus!
