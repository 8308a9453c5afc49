//! Decimal parsing and formatting over character sequences.

use vstd::prelude::*;

verus! {

/// `c` is an ASCII decimal digit.
pub open spec fn is_digit(c: char) -> bool {
    48 <= c as u32 && c as u32 <= 57
}

/// The value of the digit `c`.
pub open spec fn digit_val(c: char) -> int {
    c as u32 - 48
}

/// The digit character for a value below ten.
pub open spec fn digit_char(d: int) -> char {
    if d == 0 {
        '0'
    } else if d == 1 {
        '1'
    } else if d == 2 {
        '2'
    } else if d == 3 {
        '3'
    } else if d == 4 {
        '4'
    } else if d == 5 {
        '5'
    } else if d == 6 {
        '6'
    } else if d == 7 {
        '7'
    } else if d == 8 {
        '8'
    } else {
        '9'
    }
}

pub fn digit_char_of(d: u32) -> (c: char)
    requires
        d < 10,
    ensures
        c == digit_char(d as int),
{
    if d == 0 {
        '0'
    } else if d == 1 {
        '1'
    } else if d == 2 {
        '2'
    } else if d == 3 {
        '3'
    } else if d == 4 {
        '4'
    } else if d == 5 {
        '5'
    } else if d == 6 {
        '6'
    } else if d == 7 {
        '7'
    } else if d == 8 {
        '8'
    } else {
        '9'
    }
}

pub open spec fn all_digits(s: Seq<char>) -> bool {
    forall|i: int| 0 <= i < s.len() ==> is_digit(#[trigger] s[i])
}

/// The number that the digit string `s` denotes, read left to right.
pub open spec fn digits_value(s: Seq<char>) -> int
    decreases s.len(),
{
    if s.len() == 0 {
        0
    } else {
        digits_value(s.drop_last()) * 10 + digit_val(s.last())
    }
}

pub proof fn lemma_digits_value_bounds(s: Seq<char>)
    requires
        all_digits(s),
    ensures
        digits_value(s) >= 0,
        s.len() >= 1 ==> digits_value(s) >= digit_val(s.last()),
    decreases s.len(),
{
    if s.len() > 0 {
        assert(all_digits(s.drop_last())) by {
            assert(forall|i: int| 0 <= i < s.len() - 1 ==> s.drop_last()[i] == #[trigger] s[i]);
        }
        lemma_digits_value_bounds(s.drop_last());
    }
}

/// A digit string grows (weakly) with every digit appended.
pub proof fn lemma_digits_value_prefix(s: Seq<char>, k: int)
    requires
        all_digits(s),
        0 <= k <= s.len(),
    ensures
        digits_value(s) >= digits_value(s.take(k)),
    decreases s.len() - k,
{
    if k < s.len() {
        lemma_digits_value_prefix(s, k + 1);
        assert(s.take(k + 1).drop_last() =~= s.take(k));
        assert(s.take(k + 1).last() == s[k]);
        assert(all_digits(s.take(k))) by {
            assert(forall|i: int| 0 <= i < k ==> s.take(k)[i] == #[trigger] s[i]);
        }
        lemma_digits_value_bounds(s.take(k));
        assert(digits_value(s.take(k + 1)) == digits_value(s.take(k)) * 10 + digit_val(s[k]));
        assert(digits_value(s.take(k)) * 10 >= digits_value(s.take(k)));
        assert(digit_val(s[k]) >= 0);
    } else {
        assert(s.take(k) =~= s);
    }
}

pub open spec fn pow10(n: nat) -> int
    decreases n,
{
    if n == 0 {
        1
    } else {
        10 * pow10((n - 1) as nat)
    }
}

pub proof fn lemma_digits_value_upper(s: Seq<char>)
    requires
        all_digits(s),
    ensures
        digits_value(s) < pow10(s.len()),
    decreases s.len(),
{
    if s.len() > 0 {
        assert(all_digits(s.drop_last())) by {
            assert(forall|i: int| 0 <= i < s.len() - 1 ==> s.drop_last()[i] == #[trigger] s[i]);
        }
        lemma_digits_value_upper(s.drop_last());
        assert(digits_value(s.drop_last()) <= pow10((s.len() - 1) as nat) - 1);
        assert(digits_value(s.drop_last()) * 10 <= (pow10((s.len() - 1) as nat) - 1) * 10) by (
        nonlinear_arith)
            requires
                digits_value(s.drop_last()) <= pow10((s.len() - 1) as nat) - 1,
        ;
        assert(digit_val(s.last()) <= 9);
    }
}

/// A digit string with a non-zero first digit is at least as large as
/// the power of ten of its remaining length.
pub proof fn lemma_digits_value_lower(s: Seq<char>)
    requires
        all_digits(s),
        s.len() >= 1,
        s[0] != '0',
    ensures
        digits_value(s) >= pow10((s.len() - 1) as nat),
    decreases s.len(),
{
    if s.len() == 1 {
        assert(s[0] as u32 != 48) by {
            if s[0] as u32 == 48 {
                vstd::utf8::char_u32_cast(s[0], 48);
                vstd::utf8::char_u32_cast('0', 48);
            }
        }
        assert(digit_val(s[0]) >= 1);
        assert(digits_value(s) == digits_value(s.drop_last()) * 10 + digit_val(s.last()));
        assert(s.drop_last() =~= Seq::<char>::empty());
    } else {
        assert(all_digits(s.drop_last())) by {
            assert(forall|i: int| 0 <= i < s.len() - 1 ==> s.drop_last()[i] == #[trigger] s[i]);
        }
        assert(s.drop_last()[0] == s[0]);
        lemma_digits_value_lower(s.drop_last());
        assert(digits_value(s.drop_last()) * 10 >= pow10((s.len() - 2) as nat) * 10) by (
        nonlinear_arith)
            requires
                digits_value(s.drop_last()) >= pow10((s.len() - 2) as nat),
        ;
        assert(digit_val(s.last()) >= 0);
    }
}

/// Prepending a zero leaves the denoted value unchanged.
pub proof fn lemma_digits_value_leading_zero(s: Seq<char>)
    ensures
        digits_value(seq!['0'] + s) == digits_value(s),
    decreases s.len(),
{
    if s.len() == 0 {
        assert(seq!['0'] + s =~= seq!['0']);
        assert(seq!['0'].drop_last() =~= Seq::<char>::empty());
        assert(seq!['0'].last() == '0');
        assert(digits_value(seq!['0']) == digits_value(Seq::<char>::empty()) * 10 + digit_val('0'));
    } else {
        lemma_digits_value_leading_zero(s.drop_last());
        assert((seq!['0'] + s).drop_last() =~= seq!['0'] + s.drop_last());
        assert((seq!['0'] + s).last() == s.last());
    }
}

/// The padded rendering still denotes `n`, is all digits, and has length
/// exactly `width` when `n` fits in `width` digits.
pub proof fn lemma_dec_pad_value(n: int, width: int)
    requires
        n >= 0,
        width >= 0,
    ensures
        all_digits(dec_pad_spec(n, width)),
        digits_value(dec_pad_spec(n, width)) == n,
        dec_pad_spec(n, width).len() >= width,
        width >= 1 && n < pow10(width as nat) ==> dec_pad_spec(n, width).len() == width,
    decreases width,
{
    lemma_dec_spec_digits(n);
    let raw = dec_spec(n);
    if raw.len() >= width {
        if width >= 1 && n < pow10(width as nat) && raw.len() > width {
            lemma_dec_spec_min_len(n, width);
        }
    } else {
        lemma_pad_zeros(n, width);
    }
}

/// Helper: padding with zeros keeps the digits property and the value.
proof fn lemma_pad_zeros(n: int, width: int)
    requires
        n >= 0,
        width >= 0,
        dec_spec(n).len() < width,
    ensures
        all_digits(dec_pad_spec(n, width)),
        digits_value(dec_pad_spec(n, width)) == n,
        dec_pad_spec(n, width).len() == width,
    decreases width,
{
    lemma_dec_spec_digits(n);
    let raw = dec_spec(n);
    lemma_zeros_prefix_value(raw, (width - raw.len()) as nat);
    assert(dec_pad_spec(n, width) == Seq::new((width - raw.len()) as nat, |i: int| '0') + raw);
}

proof fn lemma_zeros_prefix_value(s: Seq<char>, k: nat)
    requires
        all_digits(s),
    ensures
        all_digits(Seq::new(k, |i: int| '0') + s),
        digits_value(Seq::new(k, |i: int| '0') + s) == digits_value(s),
    decreases k,
{
    if k == 0 {
        assert(Seq::new(0, |i: int| '0') + s =~= s);
    } else {
        lemma_digits_value_leading_zero(Seq::new((k - 1) as nat, |i: int| '0') + s);
        assert(Seq::new(k, |i: int| '0') + s =~= seq!['0'] + (Seq::new((k - 1) as nat, |i: int| '0')
            + s));
        lemma_zeros_prefix_value(s, (k - 1) as nat);
        assert(all_digits(seq!['0'] + (Seq::new((k - 1) as nat, |i: int| '0') + s))) by {
            let t = seq!['0'] + (Seq::new((k - 1) as nat, |i: int| '0') + s);
            assert(forall|i: int| 0 <= i < t.len() ==> is_digit(#[trigger] t[i])) by {
                assert(is_digit('0'));
                assert(forall|i: int|
                    1 <= i < t.len() ==> t[i] == (Seq::new((k - 1) as nat, |j: int| '0') + s)[i
                        - 1]);
            }
        }
    }
}

/// If `n` fits in `width` digits, its plain rendering is at most `width`
/// characters long.
proof fn lemma_dec_spec_min_len(n: int, width: int)
    requires
        0 <= n,
        0 <= width,
        n < pow10(width as nat),
    ensures
        dec_spec(n).len() <= width || width == 0,
    decreases n,
{
    if n < 10 {
        if width == 0 {
        } else {
            assert(pow10(0) == 1);
            assert(pow10(1) == 10);
            lemma_pow10_mono(1, width as nat);
        }
    } else {
        assert(width >= 1) by {
            if width == 0 {
                assert(pow10(0) == 1);
            }
        }
        assert(n / 10 < pow10((width - 1) as nat)) by (nonlinear_arith)
            requires
                n < pow10(width as nat),
                pow10(width as nat) == 10 * pow10((width - 1) as nat),
                n >= 10,
        ;
        lemma_dec_spec_min_len(n / 10, width - 1);
        assert(width - 1 > 0 || dec_spec(n / 10).len() == 1);
        if width - 1 == 0 {
            assert(pow10(0) == 1);
            assert(n / 10 < 1);
            assert(n < 10);
        }
    }
}

pub proof fn lemma_pow10_pos(a: nat)
    ensures
        pow10(a) >= 1,
    decreases a,
{
    if a > 0 {
        lemma_pow10_pos((a - 1) as nat);
    }
}

pub proof fn lemma_pow10_mono(a: nat, b: nat)
    requires
        a <= b,
    ensures
        pow10(a) <= pow10(b),
    decreases b,
{
    lemma_pow10_pos(a);
    if a < b {
        lemma_pow10_mono(a, (b - 1) as nat);
        lemma_pow10_pos((b - 1) as nat);
    }
}

/// The digit part of an unsigned decimal literal: everything after one
/// optional leading `+`, as `str::parse` for an unsigned integer reads it.
pub open spec fn uint_body(s: Seq<char>) -> Seq<char> {
    if s.len() > 0 && s[0] == '+' {
        s.drop_first()
    } else {
        s
    }
}

/// Whether `s` is a well-formed unsigned decimal literal.
pub open spec fn is_uint_str(s: Seq<char>) -> bool {
    uint_body(s).len() > 0 && all_digits(uint_body(s))
}

/// The value of the literal, meaningful only when `is_uint_str(s)`.
pub open spec fn uint_str_value(s: Seq<char>) -> int {
    digits_value(uint_body(s))
}

/// Parses `v` the way `str::parse::<u8>` does: an optional `+`, then one
/// or more digits, rejecting values over 255.
pub fn parse_u8_chars(v: &[char]) -> (r: Option<u8>)
    ensures
        r is Some <==> is_uint_str(v@) && uint_str_value(v@) <= 255,
        r is Some ==> r->0 as int == uint_str_value(v@),
{
    let mut i: usize = 0;
    if v.len() > 0 && v[0] == '+' {
        i = 1;
    }
    let ghost body = uint_body(v@);
    proof {
        assert(body =~= v@.skip(i as int));
    }
    let start = i;
    if i == v.len() {
        proof {
            assert(body.len() == 0);
        }
        return None;
    }
    let mut acc: u32 = 0;
    while i < v.len()
        invariant
            start <= i <= v@.len(),
            body == uint_body(v@),
            body =~= v@.skip(start as int),
            all_digits(body.take(i - start)),
            acc as int == digits_value(body.take(i - start)),
            acc <= 255,
        decreases v@.len() - i,
    {
        let c = v[i];
        let cv = c as u32;
        if cv < 48 || cv > 57 {
            proof {
                assert(body[i - start] == v@[i as int]);
                assert(!is_digit(v@[i as int]));
            }
            return None;
        }
        proof {
            assert(body.take(i + 1 - start).drop_last() =~= body.take(i - start));
            assert(body.take(i + 1 - start).last() == v@[i as int]);
            assert(all_digits(body.take(i + 1 - start)));
        }
        let d = cv - 48;
        let next = acc * 10 + d;
        if next > 255 {
            proof {
                if all_digits(body) {
                    lemma_digits_value_prefix(body, i + 1 - start);
                }
            }
            return None;
        }
        acc = next;
        i += 1;
    }
    proof {
        assert(body.take(v@.len() - start) =~= body);
    }
    Some(acc as u8)
}

/// The decimal digits of `n`, without padding; `0` prints as `"0"`.
pub open spec fn dec_spec(n: int) -> Seq<char>
    decreases n,
{
    if n < 10 {
        seq![digit_char(n)]
    } else {
        dec_spec(n / 10).push(digit_char(n % 10))
    }
}

pub proof fn lemma_dec_spec_digits(n: int)
    requires
        n >= 0,
    ensures
        all_digits(dec_spec(n)),
        digits_value(dec_spec(n)) == n,
        dec_spec(n).len() >= 1,
    decreases n,
{
    if n < 10 {
        assert(is_digit(digit_char(n)));
        assert(digit_val(digit_char(n)) == n);
        let s = dec_spec(n);
        assert(s == seq![digit_char(n)]);
        assert(s.drop_last() =~= Seq::<char>::empty());
        assert(s.last() == digit_char(n));
        assert(digits_value(s) == digits_value(s.drop_last()) * 10 + digit_val(s.last()));
        assert(digits_value(Seq::<char>::empty()) == 0);
    } else {
        lemma_dec_spec_digits(n / 10);
        let s = dec_spec(n);
        assert(s == dec_spec(n / 10).push(digit_char(n % 10)));
        assert(s.drop_last() =~= dec_spec(n / 10));
        assert(s.last() == digit_char(n % 10));
        assert(digits_value(s) == digits_value(s.drop_last()) * 10 + digit_val(s.last()));
        assert(digit_val(digit_char(n % 10)) == n % 10);
        assert(n == (n / 10) * 10 + n % 10) by {
            vstd::arithmetic::div_mod::lemma_fundamental_div_mod(n, 10);
        }
    }
}

/// The decimal rendering of `n`.
pub fn fmt_u32(n: u32) -> (v: Vec<char>)
    ensures
        v@ == dec_spec(n as int),
    decreases n,
{
    if n < 10 {
        let mut v: Vec<char> = Vec::new();
        v.push(digit_char_of(n));
        proof {
            assert(v@ =~= dec_spec(n as int));
        }
        v
    } else {
        let mut v = fmt_u32(n / 10);
        v.push(digit_char_of(n % 10));
        v
    }
}

/// The decimal rendering of `n`, left-padded with zeros to `width`
/// characters; used for the fixed-width date fields.
pub open spec fn dec_pad_spec(n: int, width: int) -> Seq<char> {
    let raw = dec_spec(n);
    if raw.len() >= width {
        raw
    } else {
        Seq::new((width - raw.len()) as nat, |i: int| '0') + raw
    }
}

/// Zero-padded decimal rendering; pads with zeros up to `width`.
pub fn fmt_u32_pad(n: u32, width: usize) -> (v: Vec<char>)
    ensures
        v@ == dec_pad_spec(n as int, width as int),
{
    let raw = fmt_u32(n);
    if raw.len() >= width {
        proof {
            assert(dec_pad_spec(n as int, width as int) == dec_spec(n as int));
        }
        return raw;
    }
    let mut v: Vec<char> = Vec::new();
    let pad = width - raw.len();
    let mut i: usize = 0;
    while i < pad
        invariant
            i <= pad,
            v@ =~= Seq::new(i as nat, |k: int| '0'),
        decreases pad - i,
    {
        v.push('0');
        proof {
            assert(Seq::new((i + 1) as nat, |k: int| '0') =~= Seq::new(i as nat, |k: int| '0').push(
                '0',
            ));
        }
        i += 1;
    }
    let mut j: usize = 0;
    let rl = raw.len();
    while j < rl
        invariant
            j <= rl,
            rl == raw@.len(),
            pad == width - rl,
            rl < width,
            v@ =~= Seq::new(pad as nat, |k: int| '0') + raw@.take(j as int),
        decreases rl - j,
    {
        v.push(raw[j]);
        proof {
            assert(raw@.take(j + 1) =~= raw@.take(j as int).push(raw@[j as int]));
        }
        j += 1;
    }
    proof {
        assert(raw@.take(rl as int) =~= raw@);
        assert(v@ =~= dec_pad_spec(n as int, width as int));
    }
    v
}

} // verus!
