//! Small string-building helpers shared by the tokenizer, the renderer
//! and the formatting functions.

use vstd::prelude::*;

verus! {

/// Relies on `String::push`: appends the given character to the end of
/// the string.
#[verifier::external_body]
pub fn push_char(s: &mut String, c: char)
    ensures
        final(s)@ == old(s)@.push(c),
{
    s.push(c)
}

/// A one-character string.
pub fn as_string(c: char) -> (st: String)
    ensures
        st@ == seq![c],
{
    let mut st = String::new();
    push_char(&mut st, c);
    proof {
        assert(st@ =~= seq![c]);
    }
    st
}

/// The character for one decimal digit value.
pub open spec fn dec_digit(d: int) -> char {
    if d == 0 {
        '0'
    } else if d == 1 {
        '1'
    } else if d == 2 {
        '2'
    } else if d == 3 {
        '3'
    } else if d == 4 {
        '4'
    } else if d == 5 {
        '5'
    } else if d == 6 {
        '6'
    } else if d == 7 {
        '7'
    } else if d == 8 {
        '8'
    } else {
        '9'
    }
}

/// The decimal rendering of a non-negative integer, most significant digit
/// first, with no leading zeros (except for zero itself).
pub open spec fn dec_string(n: int) -> Seq<char>
    decreases n,
{
    if n < 10 {
        seq![dec_digit(n)]
    } else {
        dec_string(n / 10).push(dec_digit(n % 10))
    }
}

/// The numeric value of one digit character.
pub open spec fn digit_value(c: char) -> int {
    c as int - '0' as int
}

/// The numeric value of a digit string, most significant digit first.
pub open spec fn dec_value(s: Seq<char>) -> int
    decreases s.len(),
{
    if s.len() == 0 {
        0
    } else {
        dec_value(s.drop_last()) * 10 + digit_value(s.last())
    }
}

/// A non-empty run of decimal digits.
pub open spec fn all_digits(s: Seq<char>) -> bool {
    forall|i: int| 0 <= i < s.len() ==> crate::tokenizer::is_digit_char(s[i])
}

/// The digit part of a decimal literal: everything after an optional
/// leading plus sign.
pub open spec fn dec_digits_part(s: Seq<char>) -> Seq<char> {
    if s.len() > 0 && s[0] == '+' {
        s.skip(1)
    } else {
        s
    }
}

/// Whether a string is accepted as an unsigned 64-bit decimal literal:
/// an optional plus sign, then one or more digits, with a value in range.
pub open spec fn parses_u64(s: Seq<char>) -> bool {
    let d = dec_digits_part(s);
    d.len() >= 1 && all_digits(d) && dec_value(d) <= u64::MAX
}

/// The value denoted by an unsigned decimal literal.
pub open spec fn u64_value(s: Seq<char>) -> int {
    dec_value(dec_digits_part(s))
}

/// The value of a digit string never shrinks as digits are appended.
proof fn lemma_dec_value_prefix_le(s: Seq<char>, i: int, j: int)
    requires
        0 <= i <= j <= s.len(),
        all_digits(s),
    ensures
        dec_value(s.take(i)) <= dec_value(s.take(j)),
    decreases j - i,
{
    if i < j {
        lemma_dec_value_prefix_le(s, i, j - 1);
        assert(s.take(j).drop_last() =~= s.take(j - 1));
        assert(dec_value(s.take(j - 1)) >= 0) by {
            lemma_dec_value_nonneg(s.take(j - 1));
        }
        assert(digit_value(s.take(j).last()) >= 0);
    }
}

/// Digit strings denote non-negative values.
proof fn lemma_dec_value_nonneg(s: Seq<char>)
    ensures
        all_digits(s) ==> dec_value(s) >= 0,
    decreases s.len(),
{
    if s.len() > 0 {
        assert(all_digits(s) ==> all_digits(s.drop_last()));
        lemma_dec_value_nonneg(s.drop_last());
    }
}

/// Parse an unsigned 64-bit decimal literal: an optional plus sign, then
/// one or more digits; rejects any other character and any out-of-range
/// value.
pub fn parse_u64(s: &str) -> (r: Option<u64>)
    ensures
        r is Some <==> parses_u64(s@),
        r matches Some(v) ==> v == u64_value(s@),
{
    let n = s.unicode_len();
    let mut start: usize = 0;
    if n > 0 && s.get_char(0) == '+' {
        start = 1;
    }
    proof {
        assert(dec_digits_part(s@) =~= s@.skip(start as int));
    }
    let ghost d = dec_digits_part(s@);
    if n == start {
        return None;
    }
    let mut acc: u64 = 0;
    let mut i: usize = start;
    while i < n
        invariant
            n == s@.len(),
            start <= i <= n,
            d == s@.skip(start as int),
            d == dec_digits_part(s@),
            forall|j: int| start <= j < i ==> crate::tokenizer::is_digit_char(s@[j]),
            acc == dec_value(d.take(i - start as int)),
            dec_value(d.take(i - start as int)) <= u64::MAX,
        decreases n - i,
    {
        let c = s.get_char(i);
        if !(c >= '0' && c <= '9') {
            proof {
                assert(d[i - start as int] == s@[i as int]);
                assert(!crate::tokenizer::is_digit_char(d[i - start as int]));
                assert(!all_digits(d));
            }
            return None;
        }
        let dv: u64 = (c as u32 as u64) - 48;
        proof {
            assert(dv == digit_value(s@[i as int]));
        }
        if acc > (u64::MAX - dv) / 10 {
            proof {
                vstd::arithmetic::div_mod::lemma_fundamental_div_mod(u64::MAX - dv, 10);
                vstd::arithmetic::div_mod::lemma_mod_bound(u64::MAX - dv, 10);
                assert(d.take(i + 1 - start as int).drop_last() =~= d.take(i - start as int));
                assert(d.take(i + 1 - start as int).last() == s@[i as int]);
                assert(dec_value(d.take(i + 1 - start as int)) > u64::MAX);
                if all_digits(d) {
                    lemma_dec_value_prefix_le(d, i + 1 - start as int, d.len() as int);
                    assert(d.take(d.len() as int) =~= d);
                }
            }
            return None;
        }
        acc = acc * 10 + dv;
        i += 1;
        proof {
            assert(d.take(i - start as int).drop_last() =~= d.take(i - 1 - start as int));
            assert(d.take(i - start as int).last() == s@[i - 1]);
        }
    }
    proof {
        assert(d.take(d.len() as int) =~= d);
        assert(forall|j: int| 0 <= j < d.len() ==> d[j] == s@[j + start]);
    }
    Some(acc)
}

/// The decimal rendering of an unsigned 64-bit integer.
pub fn u64_to_string(n: u64) -> (r: String)
    ensures
        r@ == dec_string(n as int),
{
    let mut digits: Vec<char> = Vec::new();
    let mut m: u64 = n;
    loop
        invariant_except_break
            digits@.len() == 0 ==> m == n,
            digits@.len() > 0 ==> m > 0 && dec_string(n as int) == dec_string(m as int) + digits@,
        ensures
            dec_string(n as int) == digits@,
        decreases m,
    {
        let ghost pre = digits@;
        let dv = m % 10;
        let c = digit_char(dv);
        digits.insert(0, c);
        let m2 = m / 10;
        proof {
            vstd::arithmetic::div_mod::lemma_fundamental_div_mod(m as int, 10);
            vstd::arithmetic::div_mod::lemma_mod_bound(m as int, 10);
            assert(digits@ =~= seq![dec_digit(m as int % 10)] + pre);
            if m2 == 0 {
                assert(dec_string(m as int) =~= seq![dec_digit(m as int)]);
                assert(dec_string(n as int) =~= digits@);
            } else {
                assert(dec_string(m as int) == dec_string(m2 as int).push(dec_digit(m as int % 10)));
                assert(dec_string(m as int) =~= dec_string(m2 as int) + seq![dec_digit(m as int % 10)]);
                assert(dec_string(n as int) =~= dec_string(m2 as int) + digits@);
            }
        }
        m = m2;
        if m == 0 {
            break;
        }
    }
    let mut r = String::new();
    let mut i: usize = 0;
    while i < digits.len()
        invariant
            r@ == digits@.take(i as int),
            i <= digits@.len(),
        decreases digits@.len() - i,
    {
        push_char(&mut r, digits[i]);
        i += 1;
        proof {
            assert(digits@.take(i as int).drop_last() =~= digits@.take(i - 1));
            assert(r@ =~= digits@.take(i as int));
        }
    }
    proof {
        assert(digits@.take(digits@.len() as int) =~= digits@);
    }
    r
}

/// The digit character for a value below ten.
fn digit_char(d: u64) -> (c: char)
    requires
        d < 10,
    ensures
        c == dec_digit(d as int),
{
    match d {
        0 => '0',
        1 => '1',
        2 => '2',
        3 => '3',
        4 => '4',
        5 => '5',
        6 => '6',
        7 => '7',
        8 => '8',
        _ => '9',
    }
}

/// A run of spaces.
pub open spec fn spaces(n: int) -> Seq<char> {
    Seq::new(if n < 0 {
        0nat
    } else {
        n as nat
    }, |i: int| ' ')
}

/// The string padded with leading spaces up to the width.
pub open spec fn pad_left_view(s: Seq<char>, w: int) -> Seq<char> {
    if s.len() >= w {
        s
    } else {
        spaces(w - s.len()) + s
    }
}

/// The string padded with trailing spaces up to the width.
pub open spec fn pad_right_view(s: Seq<char>, w: int) -> Seq<char> {
    if s.len() >= w {
        s
    } else {
        s + spaces(w - s.len())
    }
}

/// Right-align a string in a field of the given width.
pub fn pad_left(s: &str, width: usize) -> (r: String)
    ensures
        r@ == pad_left_view(s@, width as int),
{
    let n = s.unicode_len();
    let mut r = String::new();
    let mut i: usize = 0;
    proof {
        assert(r@ =~= spaces(0));
    }
    while n < width && i < width - n
        invariant
            n == s@.len(),
            n < width ==> i <= width - n,
            n >= width ==> i == 0,
            r@ == spaces(i as int),
        decreases width - n - i,
    {
        push_char(&mut r, ' ');
        i += 1;
        proof {
            assert(r@ =~= spaces(i as int));
        }
    }
    r.append(s);
    proof {
        if n >= width {
            assert(r@ =~= s@);
        } else {
            assert(r@ =~= spaces(width - s@.len()) + s@);
        }
    }
    r
}

/// Left-align a string in a field of the given width.
pub fn pad_right(s: &str, width: usize) -> (r: String)
    ensures
        r@ == pad_right_view(s@, width as int),
{
    let n = s.unicode_len();
    let mut r = String::from_str(s);
    let mut i: usize = 0;
    proof {
        assert(r@ =~= s@ + spaces(0));
    }
    while n < width && i < width - n
        invariant
            n == s@.len(),
            n < width ==> i <= width - n,
            n >= width ==> i == 0,
            r@ == s@ + spaces(i as int),
        decreases width - n - i,
    {
        push_char(&mut r, ' ');
        i += 1;
        proof {
            assert(r@ =~= s@ + spaces(i as int));
        }
    }
    proof {
        if n >= width {
            assert(s@ + spaces(0) =~= s@);
        } else {
            assert(r@ =~= s@ + spaces(width - s@.len()));
        }
    }
    r
}

/// Character-for-character string equality.
pub fn str_eq(a: &str, b: &str) -> (r: bool)
    ensures
        r == (a@ == b@),
{
    let an = a.unicode_len();
    let bn = b.unicode_len();
    if an != bn {
        proof {
            assert(a@ != b@);
        }
        return false;
    }
    let mut i: usize = 0;
    while i < an
        invariant
            an == a@.len(),
            an == b@.len(),
            i <= an,
            forall|j: int| 0 <= j < i ==> a@[j] == b@[j],
        decreases an - i,
    {
        if a.get_char(i) != b.get_char(i) {
            return false;
        }
        i += 1;
    }
    proof {
        assert(a@ =~= b@);
    }
    true
}

} // verus!
