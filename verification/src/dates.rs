//! Calendar dates: the model type, validity, the user-input normalizer,
//! the strict `DD-MM-YYYY` parser, and the two renderings the crate uses.

use vstd::prelude::*;
use crate::numbers::{
    all_digits, dec_pad_spec, dec_spec, digits_value, fmt_u32, fmt_u32_pad, is_digit, is_uint_str,
    lemma_dec_pad_value, lemma_digits_value_bounds, lemma_digits_value_upper, lemma_pow10_mono,
    parse_u8_chars, pow10, uint_body, uint_str_value,
};
use crate::text::{
    append_chars, char_whitespace, chars_str, join_spec, lemma_split_join, lemma_split_nonempty,
    lemma_trim_noop, split_chars, split_spec, str_chars, trim_chars, trim_spec,
};

verus! {

/// A calendar date without a time zone or a time of day. A value is only
/// meaningful when `date_wf` holds of it; every function here that hands
/// one out establishes that.
#[derive(Clone, Copy, Debug, PartialEq, Eq, Structural, Hash)]
pub struct Date {
    pub year: u16,
    pub month: u8,
    pub day: u8,
}

pub open spec fn is_leap_year(y: int) -> bool {
    y % 4 == 0 && (y % 100 != 0 || y % 400 == 0)
}

pub open spec fn days_in_month(y: int, m: int) -> int {
    if m == 2 {
        if is_leap_year(y) {
            29
        } else {
            28
        }
    } else if m == 4 || m == 6 || m == 9 || m == 11 {
        30
    } else {
        31
    }
}

/// `d` names a real day of the proleptic Gregorian calendar, in the
/// four-digit-year range this crate works with.
pub open spec fn date_wf(d: Date) -> bool {
    &&& 1 <= d.month <= 12
    &&& 1 <= d.day <= days_in_month(d.year as int, d.month as int)
    &&& d.year <= 9999
}

impl Date {
    /// The date with the given fields, when they name a real day.
    pub fn new(year: u16, month: u8, day: u8) -> (r: Option<Date>)
        ensures
            r is Some <==> date_wf(Date { year, month, day }),
            r is Some ==> r->0 == (Date { year, month, day }),
    {
        let d = Date { year, month, day };
        if d.valid() {
            Some(d)
        } else {
            None
        }
    }

    /// Whether the fields name a real day.
    pub fn valid(&self) -> (r: bool)
        ensures
            r == date_wf(*self),
    {
        if self.month < 1 || self.month > 12 || self.year > 9999 {
            return false;
        }
        let dim: u8 = if self.month == 2 {
            let y = self.year;
            if y % 4 == 0 && (y % 100 != 0 || y % 400 == 0) {
                29
            } else {
                28
            }
        } else if self.month == 4 || self.month == 6 || self.month == 9 || self.month == 11 {
            30
        } else {
            31
        };
        1 <= self.day && self.day <= dim
    }
}

/// `a` names an earlier day than `b`.
pub open spec fn date_lt(a: Date, b: Date) -> bool {
    ||| a.year < b.year
    ||| (a.year == b.year && a.month < b.month)
    ||| (a.year == b.year && a.month == b.month && a.day < b.day)
}

/// Whether `a` falls strictly before `b`.
pub fn date_before(a: &Date, b: &Date) -> (r: bool)
    ensures
        r == date_lt(*a, *b),
{
    if a.year != b.year {
        a.year < b.year
    } else if a.month != b.month {
        a.month < b.month
    } else {
        a.day < b.day
    }
}

/// The value of a short digit group, used for the date fields.
fn digits_group_val(v: &[char]) -> (r: Option<u32>)
    requires
        v@.len() <= 4,
    ensures
        r is Some <==> (v@.len() >= 1 && all_digits(v@)),
        r is Some ==> r->0 as int == digits_value(v@),
{
    if v.len() == 0 {
        return None;
    }
    let mut acc: u32 = 0;
    let mut i: usize = 0;
    while i < v.len()
        invariant
            i <= v@.len(),
            v@.len() <= 4,
            all_digits(v@.take(i as int)),
            acc as int == digits_value(v@.take(i as int)),
            acc <= 9999,
        decreases v@.len() - i,
    {
        let c = v[i];
        let cv = c as u32;
        if cv < 48 || cv > 57 {
            proof {
                assert(!is_digit(v@[i as int]));
            }
            return None;
        }
        proof {
            assert(v@.take(i + 1).drop_last() =~= v@.take(i as int));
            assert(v@.take(i + 1).last() == v@[i as int]);
            assert(all_digits(v@.take(i + 1)));
            lemma_digits_value_upper(v@.take(i + 1));
            assert(pow10(0) == 1);
            assert(pow10(1) == 10);
            assert(pow10(2) == 100);
            assert(pow10(3) == 1000);
            assert(pow10(4) == 10000);
            lemma_pow10_mono(v@.take(i + 1).len(), 4);
        }
        acc = acc * 10 + (cv - 48);
        i += 1;
    }
    proof {
        assert(v@.take(v@.len() as int) =~= v@);
    }
    Some(acc)
}

/// What the strict parser accepts: `D-M-YYYY` with a one- or two-digit
/// day and month, a four-digit year, and fields naming a real day.
pub open spec fn parse_date_spec(s: Seq<char>) -> Option<Date> {
    let parts = split_spec(s, '-');
    if parts.len() == 3 {
        let dp = parts[0];
        let mp = parts[1];
        let yp = parts[2];
        if 1 <= dp.len() <= 2 && all_digits(dp) && 1 <= mp.len() <= 2 && all_digits(mp)
            && yp.len() == 4 && all_digits(yp) {
            let d = Date {
                year: digits_value(yp) as u16,
                month: digits_value(mp) as u8,
                day: digits_value(dp) as u8,
            };
            if date_wf(d) {
                Some(d)
            } else {
                None
            }
        } else {
            None
        }
    } else {
        None
    }
}

/// Parses a normalized date string in the strict `DD-MM-YYYY` form; any
/// other shape, and any non-existent calendar date, is rejected.
pub fn parse_date_chars(v: &[char]) -> (r: Option<Date>)
    ensures
        r == parse_date_spec(v@),
{
    let parts = split_chars(v, '-');
    let ghost sparts = split_spec(v@, '-');
    if parts.len() != 3 {
        return None;
    }
    let dp = &parts[0];
    let mp = &parts[1];
    let yp = &parts[2];
    proof {
        assert(sparts[0] == dp@);
        assert(sparts[1] == mp@);
        assert(sparts[2] == yp@);
    }
    if dp.len() < 1 || dp.len() > 2 || mp.len() < 1 || mp.len() > 2 || yp.len() != 4 {
        return None;
    }
    let dv = digits_group_val(dp.as_slice());
    let mv = digits_group_val(mp.as_slice());
    let yv = digits_group_val(yp.as_slice());
    match (dv, mv, yv) {
        (Some(dn), Some(mn), Some(yn)) => {
            proof {
                lemma_digits_value_upper(dp@);
                lemma_digits_value_upper(mp@);
                lemma_digits_value_upper(yp@);
                assert(pow10(0) == 1);
                assert(pow10(1) == 10);
                assert(pow10(2) == 100);
                assert(pow10(3) == 1000);
                assert(pow10(4) == 10000);
                lemma_pow10_mono(dp@.len(), 2);
                lemma_pow10_mono(mp@.len(), 2);
                lemma_digits_value_bounds(dp@);
                lemma_digits_value_bounds(mp@);
                lemma_digits_value_bounds(yp@);
            }
            let d = Date { year: yn as u16, month: mn as u8, day: dn as u8 };
            if d.valid() {
                Some(d)
            } else {
                None
            }
        },
        _ => None,
    }
}

/// Parses the strict form from a string.
pub fn parse_date(s: &str) -> (r: Option<Date>)
    ensures
        r == parse_date_spec(s@),
{
    let v = str_chars(s);
    parse_date_chars(v.as_slice())
}

/// Every `/` replaced by `-`.
pub open spec fn dashed_spec(s: Seq<char>) -> Seq<char> {
    s.map_values(
        |c: char|
            if c == '/' {
                '-'
            } else {
                c
            },
    )
}

fn replace_slashes(v: &[char]) -> (r: Vec<char>)
    ensures
        r@ == dashed_spec(v@),
{
    let mut r: Vec<char> = Vec::new();
    let mut i: usize = 0;
    while i < v.len()
        invariant
            i <= v@.len(),
            r@ =~= dashed_spec(v@.take(i as int)),
        decreases v@.len() - i,
    {
        let c = v[i];
        if c == '/' {
            r.push('-');
        } else {
            r.push(c);
        }
        proof {
            assert(dashed_spec(v@.take(i + 1)) =~= dashed_spec(v@.take(i as int)).push(
                if v@[i as int] == '/' {
                    '-'
                } else {
                    v@[i as int]
                },
            ));
        }
        i += 1;
    }
    proof {
        assert(v@.take(v@.len() as int) =~= v@);
    }
    r
}

/// What normalization produces: `/` becomes `-`, and when the string has
/// exactly three `-`-separated fields whose third trims to a one- or
/// two-digit number, that number is read as a year in the 2000s and
/// written out in full.
pub open spec fn normalize_spec(s: Seq<char>) -> Seq<char> {
    let t = dashed_spec(s);
    let parts = split_spec(t, '-');
    if parts.len() == 3 {
        let ytrim = trim_spec(parts[2]);
        if 1 <= ytrim.len() <= 2 && is_uint_str(ytrim) {
            parts[0] + seq!['-'] + parts[1] + seq!['-'] + dec_spec(2000 + uint_str_value(ytrim))
        } else {
            t
        }
    } else {
        t
    }
}

/// Canonicalizes a user date string: separators unified to `-`, a short
/// year expanded into the 2000s. The result still has to pass the strict
/// parser to count as a date.
pub fn normalize_date_string(s: &str) -> (r: String)
    ensures
        r@ == normalize_spec(s@),
{
    let chars = str_chars(s);
    let t = replace_slashes(chars.as_slice());
    let parts = split_chars(t.as_slice(), '-');
    let ghost sparts = split_spec(t@, '-');
    if parts.len() == 3 {
        proof {
            assert(sparts[0] == parts@[0]@);
            assert(sparts[1] == parts@[1]@);
            assert(sparts[2] == parts@[2]@);
        }
        let ytrim = trim_chars(parts[2].as_slice());
        if ytrim.len() >= 1 && ytrim.len() <= 2 {
            if let Some(y) = parse_u8_chars(ytrim.as_slice()) {
                let mut out: Vec<char> = Vec::new();
                append_chars(&mut out, parts[0].as_slice());
                out.push('-');
                append_chars(&mut out, parts[1].as_slice());
                out.push('-');
                let yy = fmt_u32(2000 + y as u32);
                append_chars(&mut out, yy.as_slice());
                proof {
                    assert(out@ =~= sparts[0] + seq!['-'] + sparts[1] + seq!['-'] + dec_spec(
                        2000 + uint_str_value(trim_spec(sparts[2])),
                    ));
                }
                return chars_str(out.as_slice());
            }
            proof {
                if is_uint_str(trim_spec(sparts[2])) {
                    lemma_short_uint_value(trim_spec(sparts[2]));
                }
            }
        }
        return chars_str(t.as_slice());
    }
    chars_str(t.as_slice())
}

/// A literal of at most two characters denotes a value below 100 (and so
/// below 256), which is why the `u8` parser decides short-year validity.
proof fn lemma_short_uint_value(s: Seq<char>)
    requires
        s.len() <= 2,
        is_uint_str(s),
    ensures
        uint_str_value(s) <= 99,
{
    lemma_digits_value_upper(uint_body(s));
    assert(pow10(0) == 1);
    assert(pow10(1) == 10);
    assert(pow10(2) == 100);
    lemma_pow10_mono(uint_body(s).len(), 2);
}

/// Normalizes, then parses: what a user-supplied date means to the store.
/// An input that does not normalize into a real date means "no date".
pub fn date_from_input(s: &str) -> (r: Option<Date>)
    ensures
        r == parse_date_spec(normalize_spec(s@)),
{
    let n = normalize_date_string(s);
    parse_date(n.as_str())
}

/// The `DD-MM-YYYY` rendering used everywhere the user sees a date.
pub open spec fn date_dmy_spec(d: Date) -> Seq<char> {
    dec_pad_spec(d.day as int, 2) + seq!['-'] + dec_pad_spec(d.month as int, 2) + seq!['-']
        + dec_pad_spec(d.year as int, 4)
}

pub fn format_date_dmy_chars(d: &Date) -> (r: Vec<char>)
    ensures
        r@ == date_dmy_spec(*d),
{
    let mut out = fmt_u32_pad(d.day as u32, 2);
    out.push('-');
    let m = fmt_u32_pad(d.month as u32, 2);
    append_chars(&mut out, m.as_slice());
    out.push('-');
    let y = fmt_u32_pad(d.year as u32, 4);
    append_chars(&mut out, y.as_slice());
    proof {
        assert(out@ =~= date_dmy_spec(*d));
    }
    out
}

pub fn format_date_dmy(d: &Date) -> (r: String)
    ensures
        r@ == date_dmy_spec(*d),
{
    let v = format_date_dmy_chars(d);
    chars_str(v.as_slice())
}

/// The `YYYY-MM-DD` rendering used inside the on-disk document.
pub open spec fn date_iso_spec(d: Date) -> Seq<char> {
    dec_pad_spec(d.year as int, 4) + seq!['-'] + dec_pad_spec(d.month as int, 2) + seq!['-']
        + dec_pad_spec(d.day as int, 2)
}

pub fn format_date_iso_chars(d: &Date) -> (r: Vec<char>)
    ensures
        r@ == date_iso_spec(*d),
{
    let mut out = fmt_u32_pad(d.year as u32, 4);
    out.push('-');
    let m = fmt_u32_pad(d.month as u32, 2);
    append_chars(&mut out, m.as_slice());
    out.push('-');
    let dd = fmt_u32_pad(d.day as u32, 2);
    append_chars(&mut out, dd.as_slice());
    proof {
        assert(out@ =~= date_iso_spec(*d));
    }
    out
}

/// What the document parser accepts as a date: exactly `YYYY-MM-DD` with
/// zero padding, naming a real day.
pub open spec fn parse_iso_spec(s: Seq<char>) -> Option<Date> {
    let parts = split_spec(s, '-');
    if parts.len() == 3 {
        let yp = parts[0];
        let mp = parts[1];
        let dp = parts[2];
        if yp.len() == 4 && all_digits(yp) && mp.len() == 2 && all_digits(mp) && dp.len() == 2
            && all_digits(dp) {
            let d = Date {
                year: digits_value(yp) as u16,
                month: digits_value(mp) as u8,
                day: digits_value(dp) as u8,
            };
            if date_wf(d) {
                Some(d)
            } else {
                None
            }
        } else {
            None
        }
    } else {
        None
    }
}

pub fn parse_iso_chars(v: &[char]) -> (r: Option<Date>)
    ensures
        r == parse_iso_spec(v@),
{
    let parts = split_chars(v, '-');
    let ghost sparts = split_spec(v@, '-');
    if parts.len() != 3 {
        return None;
    }
    let yp = &parts[0];
    let mp = &parts[1];
    let dp = &parts[2];
    proof {
        assert(sparts[0] == yp@);
        assert(sparts[1] == mp@);
        assert(sparts[2] == dp@);
    }
    if yp.len() != 4 || mp.len() != 2 || dp.len() != 2 {
        return None;
    }
    let yv = digits_group_val(yp.as_slice());
    let mv = digits_group_val(mp.as_slice());
    let dv = digits_group_val(dp.as_slice());
    match (yv, mv, dv) {
        (Some(yn), Some(mn), Some(dn)) => {
            proof {
                lemma_digits_value_upper(mp@);
                lemma_digits_value_upper(dp@);
                lemma_digits_value_upper(yp@);
                assert(pow10(0) == 1);
                assert(pow10(1) == 10);
                assert(pow10(2) == 100);
                assert(pow10(3) == 1000);
                assert(pow10(4) == 10000);
                lemma_digits_value_bounds(mp@);
                lemma_digits_value_bounds(dp@);
                lemma_digits_value_bounds(yp@);
            }
            let d = Date { year: yn as u16, month: mn as u8, day: dn as u8 };
            if d.valid() {
                Some(d)
            } else {
                None
            }
        },
        _ => None,
    }
}

/// Splitting a separator-free piece glued before `sep` peels it off.
pub proof fn lemma_split_concat(a: Seq<char>, b: Seq<char>, sep: char)
    requires
        forall|i: int| 0 <= i < a.len() ==> a[i] != sep,
    ensures
        split_spec(a + seq![sep] + b, sep) == seq![a] + split_spec(b, sep),
    decreases a.len(),
{
    let s = a + seq![sep] + b;
    if a.len() == 0 {
        assert(s =~= seq![sep] + b);
        assert(s[0] == sep);
        assert(s.drop_first() =~= b);
        assert(split_spec(s, sep) == seq![Seq::<char>::empty()] + split_spec(b, sep));
        assert(seq![a] =~~= seq![Seq::<char>::empty()]);
    } else {
        lemma_split_concat(a.drop_first(), b, sep);
        assert(s[0] == a[0]);
        assert(s[0] != sep);
        assert(s.drop_first() =~= a.drop_first() + seq![sep] + b);
        let rest = split_spec(s.drop_first(), sep);
        assert(rest == seq![a.drop_first()] + split_spec(b, sep));
        assert(rest[0] == a.drop_first());
        lemma_split_nonempty(b, sep);
        assert(rest.drop_first() =~~= split_spec(b, sep));
        assert(split_spec(s, sep) == seq![seq![s[0]] + rest[0]] + rest.drop_first());
        assert(seq![s[0]] + rest[0] =~= a);
        assert(split_spec(s, sep) =~~= seq![a] + split_spec(b, sep));
    }
}

/// A date rendered as `DD-MM-YYYY` parses back to itself.
pub proof fn lemma_dmy_roundtrip(d: Date)
    requires
        date_wf(d),
    ensures
        parse_date_spec(date_dmy_spec(d)) == Some(d),
{
    let dp = dec_pad_spec(d.day as int, 2);
    let mp = dec_pad_spec(d.month as int, 2);
    let yp = dec_pad_spec(d.year as int, 4);
    assert(pow10(2) == 100) by {
        assert(pow10(0) == 1);
        assert(pow10(1) == 10);
    }
    assert(pow10(4) == 10000) by {
        assert(pow10(0) == 1);
        assert(pow10(1) == 10);
        assert(pow10(2) == 100);
        assert(pow10(3) == 1000);
    }
    lemma_dec_pad_value(d.day as int, 2);
    lemma_dec_pad_value(d.month as int, 2);
    lemma_dec_pad_value(d.year as int, 4);
    let s = date_dmy_spec(d);
    assert(forall|i: int| 0 <= i < dp.len() ==> dp[i] != '-') by {
        assert(forall|i: int| 0 <= i < dp.len() ==> is_digit(#[trigger] dp[i]));
    }
    assert(forall|i: int| 0 <= i < mp.len() ==> mp[i] != '-') by {
        assert(forall|i: int| 0 <= i < mp.len() ==> is_digit(#[trigger] mp[i]));
    }
    assert(s =~= dp + seq!['-'] + (mp + seq!['-'] + yp));
    lemma_split_concat(dp, mp + seq!['-'] + yp, '-');
    lemma_split_concat(mp, yp, '-');
    lemma_split_nonempty(yp, '-');
    assert(split_spec(yp, '-') == seq![yp]) by {
        lemma_split_of_sepless(yp, '-');
    }
    let parts = split_spec(s, '-');
    assert(parts =~~= seq![dp, mp, yp]);
    assert(parse_date_spec(s) == Some(d));
}

/// A date rendered as `YYYY-MM-DD` parses back to itself.
pub proof fn lemma_iso_roundtrip(d: Date)
    requires
        date_wf(d),
    ensures
        parse_iso_spec(date_iso_spec(d)) == Some(d),
{
    let yp = dec_pad_spec(d.year as int, 4);
    let mp = dec_pad_spec(d.month as int, 2);
    let dp = dec_pad_spec(d.day as int, 2);
    assert(pow10(2) == 100) by {
        assert(pow10(0) == 1);
        assert(pow10(1) == 10);
    }
    assert(pow10(4) == 10000) by {
        assert(pow10(0) == 1);
        assert(pow10(1) == 10);
        assert(pow10(2) == 100);
        assert(pow10(3) == 1000);
    }
    lemma_dec_pad_value(d.day as int, 2);
    lemma_dec_pad_value(d.month as int, 2);
    lemma_dec_pad_value(d.year as int, 4);
    let s = date_iso_spec(d);
    assert(forall|i: int| 0 <= i < yp.len() ==> yp[i] != '-') by {
        assert(forall|i: int| 0 <= i < yp.len() ==> is_digit(#[trigger] yp[i]));
    }
    assert(forall|i: int| 0 <= i < mp.len() ==> mp[i] != '-') by {
        assert(forall|i: int| 0 <= i < mp.len() ==> is_digit(#[trigger] mp[i]));
    }
    assert(s =~= yp + seq!['-'] + (mp + seq!['-'] + dp));
    lemma_split_concat(yp, mp + seq!['-'] + dp, '-');
    lemma_split_concat(mp, dp, '-');
    assert(split_spec(dp, '-') == seq![dp]) by {
        lemma_split_of_sepless(dp, '-');
    }
    let parts = split_spec(s, '-');
    assert(parts =~~= seq![yp, mp, dp]);
    assert(parse_iso_spec(s) == Some(d));
}

/// A nonempty separator-free sequence splits into itself alone.
pub proof fn lemma_split_of_sepless(s: Seq<char>, sep: char)
    requires
        forall|i: int| 0 <= i < s.len() ==> s[i] != sep,
    ensures
        split_spec(s, sep) == seq![s],
    decreases s.len(),
{
    if s.len() == 0 {
        assert(split_spec(s, sep) =~~= seq![s]);
    } else {
        lemma_split_of_sepless(s.drop_first(), sep);
        let rest = split_spec(s.drop_first(), sep);
        assert(rest == seq![s.drop_first()]);
        assert(seq![s[0]] + rest[0] =~= s);
        assert(rest.drop_first() =~~= Seq::<Seq<char>>::empty());
        assert(split_spec(s, sep) =~~= seq![s]);
    }
}

/// Normalization is stable: once an input has normalized into a string
/// the strict parser accepts, normalizing again changes nothing. So for
/// every accepted input, parsing the once- and twice-normalized forms
/// gives the same date.
pub proof fn lemma_normalize_stable(s: Seq<char>)
    requires
        parse_date_spec(normalize_spec(s)) is Some,
    ensures
        normalize_spec(normalize_spec(s)) == normalize_spec(s),
        parse_date_spec(normalize_spec(normalize_spec(s))) == parse_date_spec(normalize_spec(s)),
{
    let ns = normalize_spec(s);
    let parts = split_spec(ns, '-');
    assert(parts.len() == 3);
    let dp = parts[0];
    let mp = parts[1];
    let yp = parts[2];
    assert(all_digits(dp) && all_digits(mp) && all_digits(yp) && yp.len() == 4);
    lemma_split_join(ns, '-');
    assert(join_spec(parts, '-') == ns);
    assert(parts.drop_first() =~~= seq![mp, yp]);
    assert(parts.drop_first().drop_first() =~~= seq![yp]);
    assert(join_spec(seq![yp], '-') == yp);
    assert(join_spec(seq![mp, yp], '-') == mp + seq!['-'] + yp);
    assert(ns =~= dp + seq!['-'] + (mp + seq!['-'] + yp));
    assert(forall|i: int| 0 <= i < ns.len() ==> ns[i] != '/') by {
        assert forall|i: int| 0 <= i < ns.len() implies ns[i] != '/' by {
            let pre = dp + seq!['-'];
            let mid = mp + seq!['-'];
            if i < dp.len() {
                assert(ns[i] == dp[i]);
                assert(is_digit(dp[i]));
            } else if i == dp.len() {
                assert(ns[i] == '-');
            } else if i < dp.len() + 1 + mp.len() {
                assert(ns[i] == mp[i - dp.len() - 1]);
                assert(is_digit(mp[i - dp.len() - 1]));
            } else if i == dp.len() + 1 + mp.len() {
                assert(ns[i] == '-');
            } else {
                assert(ns[i] == yp[i - dp.len() - mp.len() - 2]);
                assert(is_digit(yp[i - dp.len() - mp.len() - 2]));
            }
        }
    }
    assert(dashed_spec(ns) =~= ns);
    let parts2 = split_spec(dashed_spec(ns), '-');
    assert(parts2 == parts);
    assert(yp.len() == 4);
    assert(!char_whitespace(yp[0]) && !char_whitespace(yp[yp.len() - 1])) by {
        assert(is_digit(yp[0]));
        assert(is_digit(yp[yp.len() - 1]));
    }
    lemma_trim_noop(yp);
    assert(trim_spec(yp).len() == 4);
    assert(normalize_spec(ns) == ns);
}

/// Relies on chrono::Local::now and chrono::NaiveDate's accessors: the
/// calendar date today in the local time zone, as (year, month, day);
/// chrono documents month in 1..=12 and day in 1..=31. On a machine
/// whose clock is set before the Unix epoch the underlying call panics;
/// that is an environment condition no `requires` can state.
#[verifier::external_body]
fn today_fields() -> (r: (i64, u32, u32))
    ensures
        1 <= r.1 <= 12,
        1 <= r.2 <= 31,
{
    let d = chrono::Local::now().date_naive();
    (
        chrono::Datelike::year(&d) as i64,
        chrono::Datelike::month(&d),
        chrono::Datelike::day(&d),
    )
}

/// Today in the local calendar, when it falls inside the four-digit-year
/// range; used only to tell overdue dates from upcoming ones.
pub fn today() -> (r: Option<Date>)
    ensures
        r is Some ==> date_wf(r->0),
{
    let (y, m, d) = today_fields();
    if y < 1 || y > 9999 {
        return None;
    }
    Date::new(y as u16, m as u8, d as u8)
}

} // verus!
