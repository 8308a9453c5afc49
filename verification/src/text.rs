//! Character and string utilities shared by the whole crate.
//!
//! Exec code works over `Vec<char>` wherever it has to inspect text, and
//! converts to and from `String` at the edges; the conversions themselves
//! are verified against the string views.

use vstd::prelude::*;
use vstd::string::*;

verus! {

/// The Unicode `White_Space` property, written out in full: this is the
/// set of characters that `char::is_whitespace` accepts.
pub open spec fn char_whitespace(c: char) -> bool {
    ||| c == ' '
    ||| c == '\t'
    ||| c == '\n'
    ||| c == '\u{b}'
    ||| c == '\u{c}'
    ||| c == '\r'
    ||| c == '\u{85}'
    ||| c == '\u{a0}'
    ||| c == '\u{1680}'
    ||| (0x2000 <= c as u32 && c as u32 <= 0x200a)
    ||| c == '\u{2028}'
    ||| c == '\u{2029}'
    ||| c == '\u{202f}'
    ||| c == '\u{205f}'
    ||| c == '\u{3000}'
}

/// What `char::is_alphanumeric` returns; the Unicode `Alphabetic` and
/// number classes are not written out here, the name stands for them.
pub uninterp spec fn char_alphanumeric(c: char) -> bool;

/// Relies on char::is_whitespace: whether `c` has the Unicode
/// `White_Space` property, the set that `char_whitespace` lists.
#[verifier::external_body]
pub fn is_whitespace_char(c: char) -> (r: bool)
    ensures
        r == char_whitespace(c),
{
    c.is_whitespace()
}

/// Relies on char::is_alphanumeric: whether `c` is in the Unicode
/// `Alphabetic` class or a number class; the result depends on the
/// character alone.
#[verifier::external_body]
pub fn is_alphanumeric_char(c: char) -> (r: bool)
    ensures
        r == char_alphanumeric(c),
{
    c.is_alphanumeric()
}

/// Relies on String::push: appends exactly one character at the end.
#[verifier::external_body]
pub fn push_char(s: &mut String, c: char)
    ensures
        final(s)@ == old(s)@.push(c),
{
    s.push(c);
}

/// The characters of `s`, in order.
pub fn str_chars(s: &str) -> (v: Vec<char>)
    ensures
        v@ == s@,
{
    let n = s.unicode_len();
    let mut v: Vec<char> = Vec::new();
    let mut i: usize = 0;
    while i < n
        invariant
            i <= n,
            n == s@.len(),
            v@ == s@.take(i as int),
        decreases n - i,
    {
        let c = s.get_char(i);
        v.push(c);
        proof {
            assert(s@.take(i + 1 as int) == s@.take(i as int).push(s@[i as int]));
        }
        i += 1;
    }
    proof {
        assert(s@.take(n as int) == s@);
    }
    v
}

/// The string holding exactly the characters of `v`.
pub fn chars_str(v: &[char]) -> (s: String)
    ensures
        s@ == v@,
{
    let mut s = String::new();
    let mut i: usize = 0;
    while i < v.len()
        invariant
            i <= v@.len(),
            s@ == v@.take(i as int),
        decreases v@.len() - i,
    {
        push_char(&mut s, v[i]);
        proof {
            assert(v@.take(i + 1 as int) == v@.take(i as int).push(v@[i as int]));
        }
        i += 1;
    }
    proof {
        assert(v@.take(v@.len() as int) == v@);
    }
    s
}

/// Whether two strings hold the same characters.
pub fn str_eq(a: &str, b: &str) -> (r: bool)
    ensures
        r == (a@ == b@),
{
    let va = str_chars(a);
    let vb = str_chars(b);
    if va.len() != vb.len() {
        proof {
            assert(a@.len() != b@.len());
        }
        return false;
    }
    let mut i: usize = 0;
    while i < va.len()
        invariant
            i <= va@.len(),
            va@ == a@,
            vb@ == b@,
            a@.len() == b@.len(),
            forall|j: int| 0 <= j < i ==> a@[j] == b@[j],
        decreases va@.len() - i,
    {
        if va[i] != vb[i] {
            return false;
        }
        i += 1;
    }
    proof {
        assert(a@ =~= b@);
    }
    true
}

/// Every character of `s` is whitespace; true of the empty sequence.
/// A task text is rejected exactly when this holds of it.
pub open spec fn all_whitespace(s: Seq<char>) -> bool {
    forall|i: int| 0 <= i < s.len() ==> char_whitespace(#[trigger] s[i])
}

/// Whether `v` trims to nothing.
pub fn is_blank(v: &[char]) -> (r: bool)
    ensures
        r == all_whitespace(v@),
{
    let mut i: usize = 0;
    while i < v.len()
        invariant
            i <= v@.len(),
            forall|j: int| 0 <= j < i ==> char_whitespace(#[trigger] v@[j]),
        decreases v@.len() - i,
    {
        if !is_whitespace_char(v[i]) {
            return false;
        }
        i += 1;
    }
    true
}

/// Index of the first character of `s` that is not whitespace, or `s.len()`.
pub open spec fn first_non_ws(s: Seq<char>) -> int
    decreases s.len(),
{
    if s.len() == 0 {
        0
    } else if !char_whitespace(s[0]) {
        0
    } else {
        1 + first_non_ws(s.drop_first())
    }
}

/// One past the index of the last character of `s` that is not whitespace,
/// or 0 when all of `s` is whitespace.
pub open spec fn last_non_ws_end(s: Seq<char>) -> int
    decreases s.len(),
{
    if s.len() == 0 {
        0
    } else if !char_whitespace(s[s.len() - 1]) {
        s.len() as int
    } else {
        last_non_ws_end(s.drop_last())
    }
}

/// `s` with leading and trailing whitespace removed.
pub open spec fn trim_spec(s: Seq<char>) -> Seq<char> {
    if all_whitespace(s) {
        Seq::empty()
    } else {
        s.subrange(first_non_ws(s), last_non_ws_end(s))
    }
}

pub proof fn lemma_first_non_ws(s: Seq<char>)
    ensures
        0 <= first_non_ws(s) <= s.len(),
        forall|j: int| 0 <= j < first_non_ws(s) ==> char_whitespace(#[trigger] s[j]),
        first_non_ws(s) < s.len() ==> !char_whitespace(s[first_non_ws(s)]),
    decreases s.len(),
{
    if s.len() > 0 && char_whitespace(s[0]) {
        lemma_first_non_ws(s.drop_first());
        assert forall|j: int| 0 <= j < first_non_ws(s) implies char_whitespace(
            #[trigger] s[j],
        ) by {
            if j > 0 {
                assert(s.drop_first()[j - 1] == s[j]);
            }
        }
    }
}

pub proof fn lemma_last_non_ws_end(s: Seq<char>)
    ensures
        0 <= last_non_ws_end(s) <= s.len(),
        forall|j: int| last_non_ws_end(s) <= j < s.len() ==> char_whitespace(#[trigger] s[j]),
        last_non_ws_end(s) > 0 ==> !char_whitespace(s[last_non_ws_end(s) - 1]),
    decreases s.len(),
{
    if s.len() > 0 && char_whitespace(s[s.len() - 1]) {
        lemma_last_non_ws_end(s.drop_last());
        assert forall|j: int| last_non_ws_end(s) <= j < s.len() implies char_whitespace(
            #[trigger] s[j],
        ) by {
            if j < s.len() - 1 {
                assert(s.drop_last()[j] == s[j]);
            }
        }
    }
}

/// A sequence whose first and last characters are not whitespace trims
/// to itself.
pub proof fn lemma_trim_noop(s: Seq<char>)
    requires
        s.len() > 0,
        !char_whitespace(s[0]),
        !char_whitespace(s[s.len() - 1]),
    ensures
        trim_spec(s) == s,
{
    assert(!all_whitespace(s));
    assert(first_non_ws(s) == 0);
    assert(last_non_ws_end(s) == s.len());
    assert(s.subrange(0, s.len() as int) =~= s);
}

/// Appends all of `src` to `dst`.
pub fn append_chars(dst: &mut Vec<char>, src: &[char])
    ensures
        final(dst)@ == old(dst)@ + src@,
{
    let ghost orig = dst@;
    let mut i: usize = 0;
    while i < src.len()
        invariant
            i <= src@.len(),
            dst@ == orig + src@.take(i as int),
        decreases src@.len() - i,
    {
        dst.push(src[i]);
        proof {
            assert(orig + src@.take(i + 1) =~= (orig + src@.take(i as int)).push(
                src@[i as int],
            ));
        }
        i += 1;
    }
    proof {
        assert(orig + src@.take(src@.len() as int) =~= orig + src@);
    }
}

/// Appends all of `src` to `dst`.
pub fn append_u8(dst: &mut Vec<u8>, src: &[u8])
    ensures
        final(dst)@ == old(dst)@ + src@,
{
    let ghost orig = dst@;
    let mut i: usize = 0;
    while i < src.len()
        invariant
            i <= src@.len(),
            dst@ == orig + src@.take(i as int),
        decreases src@.len() - i,
    {
        dst.push(src[i]);
        proof {
            assert(orig + src@.take(i + 1) =~= (orig + src@.take(i as int)).push(
                src@[i as int],
            ));
        }
        i += 1;
    }
    proof {
        assert(orig + src@.take(src@.len() as int) =~= orig + src@);
    }
}

/// `v` with leading and trailing whitespace removed.
pub fn trim_chars(v: &[char]) -> (r: Vec<char>)
    ensures
        r@ == trim_spec(v@),
{
    let mut start: usize = 0;
    while start < v.len() && is_whitespace_char(v[start])
        invariant
            start <= v@.len(),
            forall|j: int| 0 <= j < start ==> char_whitespace(#[trigger] v@[j]),
        decreases v@.len() - start,
    {
        start += 1;
    }
    if start == v.len() {
        proof {
            assert(all_whitespace(v@));
        }
        return Vec::new();
    }
    proof {
        assert(!char_whitespace(v@[start as int]));
        assert(!all_whitespace(v@));
        assert(start == first_non_ws(v@)) by {
            lemma_first_non_ws(v@);
            if start < first_non_ws(v@) {
                assert(char_whitespace(v@[start as int]));
            }
        }
    }
    let mut end: usize = v.len();
    while end > start && is_whitespace_char(v[end - 1])
        invariant
            start <= end <= v@.len(),
            start < v@.len(),
            !char_whitespace(v@[start as int]),
            forall|j: int| end <= j < v@.len() ==> char_whitespace(#[trigger] v@[j]),
        decreases end,
    {
        end -= 1;
    }
    proof {
        assert(end > start);
        assert(end == last_non_ws_end(v@)) by {
            lemma_last_non_ws_end(v@);
            if end < last_non_ws_end(v@) {
                assert(char_whitespace(v@[last_non_ws_end(v@) - 1]));
            }
            if end > last_non_ws_end(v@) {
                assert(char_whitespace(v@[end - 1]));
            }
        }
    }
    let mut r: Vec<char> = Vec::new();
    let mut i: usize = start;
    while i < end
        invariant
            start <= i <= end <= v@.len(),
            r@ == v@.subrange(start as int, i as int),
        decreases end - i,
    {
        r.push(v[i]);
        proof {
            assert(v@.subrange(start as int, i + 1 as int) == v@.subrange(
                start as int,
                i as int,
            ).push(v@[i as int]));
        }
        i += 1;
    }
    r
}

/// The pieces of `s` between occurrences of `sep`, as `str::split` yields
/// them: the empty sequence splits into one empty piece, and separators at
/// the ends or next to each other yield empty pieces.
pub open spec fn split_spec(s: Seq<char>, sep: char) -> Seq<Seq<char>>
    decreases s.len(),
{
    if s.len() == 0 {
        seq![Seq::<char>::empty()]
    } else if s[0] == sep {
        seq![Seq::<char>::empty()] + split_spec(s.drop_first(), sep)
    } else {
        let rest = split_spec(s.drop_first(), sep);
        seq![seq![s[0]] + rest[0]] + rest.drop_first()
    }
}

pub proof fn lemma_split_nonempty(s: Seq<char>, sep: char)
    ensures
        split_spec(s, sep).len() >= 1,
    decreases s.len(),
{
    if s.len() > 0 && s[0] != sep {
        lemma_split_nonempty(s.drop_first(), sep);
    }
}

/// The pieces joined back with `sep` give the original sequence.
pub open spec fn join_spec(parts: Seq<Seq<char>>, sep: char) -> Seq<char>
    decreases parts.len(),
{
    if parts.len() == 0 {
        Seq::empty()
    } else if parts.len() == 1 {
        parts[0]
    } else {
        parts[0] + seq![sep] + join_spec(parts.drop_first(), sep)
    }
}

pub proof fn lemma_split_join(s: Seq<char>, sep: char)
    ensures
        join_spec(split_spec(s, sep), sep) == s,
    decreases s.len(),
{
    lemma_split_nonempty(s, sep);
    if s.len() == 0 {
    } else if s[0] == sep {
        lemma_split_join(s.drop_first(), sep);
        lemma_split_nonempty(s.drop_first(), sep);
        let parts = split_spec(s, sep);
        assert(parts.drop_first() == split_spec(s.drop_first(), sep));
        assert(join_spec(parts, sep) == Seq::<char>::empty() + seq![sep] + join_spec(
            split_spec(s.drop_first(), sep),
            sep,
        ));
        assert(join_spec(parts, sep) =~= s);
    } else {
        lemma_split_join(s.drop_first(), sep);
        let rest = split_spec(s.drop_first(), sep);
        lemma_split_nonempty(s.drop_first(), sep);
        let parts = split_spec(s, sep);
        if rest.len() == 1 {
            assert(parts.len() == 1);
            assert(join_spec(parts, sep) == seq![s[0]] + rest[0]);
            assert(join_spec(rest, sep) == rest[0]);
            assert(join_spec(parts, sep) =~= s);
        } else {
            assert(parts.drop_first() == rest.drop_first());
            assert(join_spec(parts, sep) == (seq![s[0]] + rest[0]) + seq![sep] + join_spec(
                rest.drop_first(),
                sep,
            ));
            assert(join_spec(rest, sep) == rest[0] + seq![sep] + join_spec(
                rest.drop_first(),
                sep,
            ));
            assert(join_spec(parts, sep) =~= seq![s[0]] + join_spec(rest, sep));
            assert(join_spec(parts, sep) =~= s);
        }
    }
}

/// Joining one more piece appends a separator and the piece.
pub proof fn lemma_join_push(parts: Seq<Seq<char>>, p: Seq<char>, sep: char)
    ensures
        join_spec(parts.push(p), sep) == if parts.len() == 0 {
            p
        } else {
            join_spec(parts, sep) + seq![sep] + p
        },
    decreases parts.len(),
{
    if parts.len() == 0 {
        assert(parts.push(p).len() == 1);
        assert(join_spec(parts.push(p), sep) == parts.push(p)[0]);
    } else if parts.len() == 1 {
        let two = parts.push(p);
        assert(two.len() == 2);
        assert(two.drop_first() =~~= seq![p]);
        assert(join_spec(two, sep) == two[0] + seq![sep] + join_spec(seq![p], sep));
        assert(join_spec(seq![p], sep) == p);
        assert(two[0] == parts[0]);
        assert(join_spec(parts, sep) == parts[0]);
    } else {
        lemma_join_push(parts.drop_first(), p, sep);
        let whole = parts.push(p);
        assert(whole.drop_first() =~~= parts.drop_first().push(p));
        assert(join_spec(whole, sep) == whole[0] + seq![sep] + join_spec(
            parts.drop_first().push(p),
            sep,
        ));
        assert(join_spec(parts.drop_first().push(p), sep) == join_spec(parts.drop_first(), sep)
            + seq![sep] + p);
        assert(join_spec(parts, sep) == parts[0] + seq![sep] + join_spec(parts.drop_first(), sep));
        assert(whole[0] == parts[0]);
        assert(join_spec(whole, sep) =~= join_spec(parts, sep) + seq![sep] + p);
    }
}

/// The pieces of `v` between occurrences of `sep`.
pub fn split_chars(v: &[char], sep: char) -> (parts: Vec<Vec<char>>)
    ensures
        parts@.map_values(|p: Vec<char>| p@) == split_spec(v@, sep),
{
    let ghost full = v@;
    let mut parts: Vec<Vec<char>> = Vec::new();
    let mut cur: Vec<char> = Vec::new();
    let mut i: usize = 0;
    proof {
        assert(v@.skip(0) == v@);
    }
    while i < v.len()
        invariant
            i <= v@.len(),
            split_spec(v@, sep) == parts@.map_values(|p: Vec<char>| p@) + seq![
                cur@ + split_spec(v@.skip(i as int), sep)[0],
            ] + split_spec(v@.skip(i as int), sep).drop_first(),
        decreases v@.len() - i,
    {
        proof {
            lemma_split_nonempty(v@.skip(i + 1), sep);
            assert(v@.skip(i as int).drop_first() == v@.skip(i + 1));
        }
        let ghost prev_parts = parts@;
        let ghost prev_cur = cur@;
        let ghost here = split_spec(v@.skip(i as int), sep);
        let ghost rest = split_spec(v@.skip(i + 1), sep);
        let c = v[i];
        if c == sep {
            let done = cur;
            cur = Vec::new();
            parts.push(done);
            proof {
                assert(here =~~= seq![Seq::<char>::empty()] + rest);
                assert(prev_cur + here[0] =~= prev_cur);
                assert(parts@.map_values(|p: Vec<char>| p@) =~~= prev_parts.map_values(
                    |p: Vec<char>| p@,
                ).push(prev_cur));
                assert(split_spec(v@, sep) =~~= parts@.map_values(|p: Vec<char>| p@) + seq![
                    cur@ + rest[0],
                ] + rest.drop_first());
            }
        } else {
            cur.push(c);
            proof {
                assert(here =~~= seq![seq![v@[i as int]] + rest[0]] + rest.drop_first());
                assert(prev_cur + here[0] =~= cur@ + rest[0]);
                assert(here.drop_first() =~~= rest.drop_first());
                assert(split_spec(v@, sep) =~~= parts@.map_values(|p: Vec<char>| p@) + seq![
                    cur@ + rest[0],
                ] + rest.drop_first());
            }
        }
        i += 1;
    }
    proof {
        assert(v@.skip(v@.len() as int) =~= Seq::<char>::empty());
        assert(split_spec(Seq::<char>::empty(), sep) == seq![Seq::<char>::empty()]);
        assert(cur@ + Seq::<char>::empty() =~= cur@);
        assert(split_spec(v@, sep) =~= parts@.map_values(|p: Vec<char>| p@).push(cur@));
    }
    let ghost before = parts@;
    parts.push(cur);
    proof {
        assert(parts@.map_values(|p: Vec<char>| p@) =~= before.map_values(|p: Vec<char>| p@).push(
            parts@[before.len() as int]@,
        ));
    }
    parts
}

} // verus!
