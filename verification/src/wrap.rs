//! The presenter's text work: word wrapping to a width, the ANSI code
//! helpers, the date column, and the width bookkeeping for the listing.

use vstd::prelude::*;
use crate::dates::{date_dmy_spec, date_lt, format_date_dmy, Date};
use crate::text::{char_whitespace, chars_str, is_whitespace_char, str_chars};

verus! {

/// The whitespace-separated words of `s`, in order; empty runs yield no
/// word.
pub open spec fn words_of(s: Seq<char>) -> Seq<Seq<char>>
    decreases s.len(),
{
    if s.len() == 0 {
        Seq::empty()
    } else if char_whitespace(s[0]) {
        words_of(s.drop_first())
    } else {
        let rest = words_of(s.drop_first());
        if s.len() >= 2 && !char_whitespace(s[1]) {
            seq![seq![s[0]] + rest[0]] + rest.drop_first()
        } else {
            seq![seq![s[0]]] + rest
        }
    }
}

proof fn lemma_words_first(s: Seq<char>)
    ensures
        s.len() >= 1 && !char_whitespace(s[0]) ==> words_of(s).len() >= 1,
    decreases s.len(),
{
    if s.len() >= 2 && !char_whitespace(s[0]) && !char_whitespace(s[1]) {
        lemma_words_first(s.drop_first());
    }
}

/// A long word cut into pieces of exactly `width` characters, the last
/// piece possibly shorter.
pub open spec fn chunks_of(w: Seq<char>, width: int) -> Seq<Seq<char>>
    decreases w.len(),
    when width >= 1
{
    if w.len() == 0 {
        Seq::empty()
    } else if w.len() <= width {
        seq![w]
    } else {
        seq![w.take(width)] + chunks_of(w.skip(width), width)
    }
}

/// One word folded into the wrap state: the finished lines and the line
/// under construction. A word that fits joins the current line after a
/// space; one that does not starts a new line; one wider than the whole
/// width is cut into fixed-width chunks that go straight to the lines.
pub open spec fn wrap_step(
    lines: Seq<Seq<char>>,
    cur: Seq<char>,
    w: Seq<char>,
    width: int,
) -> (Seq<Seq<char>>, Seq<char>) {
    if cur.len() == 0 {
        if w.len() <= width {
            (lines, w)
        } else {
            (lines + chunks_of(w, width), cur)
        }
    } else {
        if cur.len() + 1 + w.len() <= width {
            (lines, cur + seq![' '] + w)
        } else {
            if w.len() <= width {
                (lines.push(cur), w)
            } else {
                (lines.push(cur) + chunks_of(w, width), Seq::empty())
            }
        }
    }
}

/// All words folded in order.
pub open spec fn wrap_fold(words: Seq<Seq<char>>, width: int) -> (Seq<Seq<char>>, Seq<char>)
    decreases words.len(),
{
    if words.len() == 0 {
        (Seq::empty(), Seq::empty())
    } else {
        let prev = wrap_fold(words.drop_last(), width);
        wrap_step(prev.0, prev.1, words.last(), width)
    }
}

/// What wrapping a text to a width yields: the folded lines with the
/// unfinished line flushed, and a single empty line when there was
/// nothing to wrap.
pub open spec fn wrap_spec(s: Seq<char>, width: int) -> Seq<Seq<char>> {
    let folded = wrap_fold(words_of(s), width);
    let all = if folded.1.len() > 0 {
        folded.0.push(folded.1)
    } else {
        folded.0
    };
    if all.len() == 0 {
        seq![Seq::<char>::empty()]
    } else {
        all
    }
}

/// The whitespace-separated words of `v`.
pub fn split_words(v: &[char]) -> (r: Vec<Vec<char>>)
    ensures
        r@.map_values(|w: Vec<char>| w@) == words_of(v@),
{
    let mut r: Vec<Vec<char>> = Vec::new();
    let mut cur: Vec<char> = Vec::new();
    let mut i: usize = 0;
    proof {
        assert(v@.skip(0) =~= v@);
        assert(r@.map_values(|w: Vec<char>| w@) =~= Seq::<Seq<char>>::empty());
    }
    while i < v.len()
        invariant
            i <= v@.len(),
            words_of(v@) == r@.map_values(|w: Vec<char>| w@) + (if cur@.len() == 0 {
                words_of(v@.skip(i as int))
            } else if i < v@.len() && !char_whitespace(v@[i as int]) {
                seq![cur@ + words_of(v@.skip(i as int))[0]] + words_of(
                    v@.skip(i as int),
                ).drop_first()
            } else {
                seq![cur@] + words_of(v@.skip(i as int))
            }),
        decreases v@.len() - i,
    {
        let c = v[i];
        let ghost snext = v@.skip(i + 1);
        proof {
            assert(v@.skip(i as int)[0] == v@[i as int]);
            assert(v@.skip(i as int).drop_first() =~= snext);
            if v@.skip(i as int).len() >= 2 {
                assert(v@.skip(i as int)[1] == v@[i + 1]);
            }
        }
        if is_whitespace_char(c) {
            if cur.len() > 0 {
                let ghost prev = r@;
                r.push(cur);
                cur = Vec::new();
                proof {
                    assert(r@.map_values(|w: Vec<char>| w@) =~= prev.map_values(
                        |w: Vec<char>| w@,
                    ).push(r@.last()@));
                    assert(prev.map_values(|w: Vec<char>| w@).push(r@.last()@) + words_of(snext)
                        =~= prev.map_values(|w: Vec<char>| w@) + (seq![r@.last()@] + words_of(
                        snext,
                    )));
                }
            }
            proof {
                assert(words_of(v@.skip(i as int)) == words_of(snext));
            }
        } else {
            proof {
                lemma_words_first(v@.skip(i as int));
                if snext.len() >= 1 && !char_whitespace(snext[0]) {
                    lemma_words_first(snext);
                    assert(words_of(v@.skip(i as int)) == seq![seq![v@[i as int]] + words_of(
                        snext,
                    )[0]] + words_of(snext).drop_first());
                } else {
                    assert(words_of(v@.skip(i as int)) == seq![seq![v@[i as int]]] + words_of(
                        snext,
                    ));
                }
            }
            let ghost curprev = cur@;
            cur.push(c);
            proof {
                assert(cur@ =~= curprev.push(v@[i as int]));
                if snext.len() >= 1 && !char_whitespace(snext[0]) {
                    assert(curprev + (seq![v@[i as int]] + words_of(snext)[0]) =~= cur@
                        + words_of(snext)[0]);
                    assert(curprev.push(v@[i as int]) + words_of(snext)[0] =~= cur@ + words_of(
                        snext,
                    )[0]);
                } else {
                    assert(curprev + seq![v@[i as int]] =~= cur@);
                }
            }
        }
        i += 1;
    }
    proof {
        assert(v@.skip(v@.len() as int) =~= Seq::<char>::empty());
        assert(words_of(Seq::<char>::empty()) =~= Seq::<Seq<char>>::empty());
    }
    if cur.len() > 0 {
        let ghost prev = r@;
        r.push(cur);
        proof {
            assert(r@.map_values(|w: Vec<char>| w@) =~= prev.map_values(|w: Vec<char>| w@).push(
                r@.last()@,
            ));
            assert(words_of(v@) =~= r@.map_values(|w: Vec<char>| w@));
        }
    } else {
        proof {
            assert(words_of(v@) =~= r@.map_values(|w: Vec<char>| w@));
        }
    }
    r
}

/// Appends the fixed-width chunks of one over-long word to the lines.
fn push_chunks(lines: &mut Vec<Vec<char>>, w: &[char], width: usize)
    requires
        width >= 1,
    ensures
        final(lines)@.map_values(|l: Vec<char>| l@) == old(lines)@.map_values(|l: Vec<char>| l@)
            + chunks_of(w@, width as int),
{
    let ghost orig = lines@.map_values(|l: Vec<char>| l@);
    let mut i: usize = 0;
    proof {
        assert(w@.skip(0) =~= w@);
    }
    while i < w.len()
        invariant
            i <= w@.len(),
            width >= 1,
            lines@.map_values(|l: Vec<char>| l@) + chunks_of(w@.skip(i as int), width as int)
                == orig + chunks_of(w@, width as int),
        decreases w@.len() - i,
    {
        let wl = w.len();
        let take = if wl - i < width {
            wl - i
        } else {
            width
        };
        let mut chunk: Vec<char> = Vec::new();
        let mut j: usize = 0;
        while j < take
            invariant
                j <= take,
                i + take <= w@.len(),
                wl == w@.len(),
                chunk@ == w@.subrange(i as int, i + j),
            decreases take - j,
        {
            chunk.push(w[i + j]);
            proof {
                assert(w@.subrange(i as int, i + j + 1) =~= w@.subrange(i as int, i + j).push(
                    w@[i + j],
                ));
            }
            j += 1;
        }
        let ghost prev = lines@;
        lines.push(chunk);
        proof {
            let rest = w@.skip(i as int);
            assert(lines@.map_values(|l: Vec<char>| l@) =~= prev.map_values(
                |l: Vec<char>| l@,
            ).push(w@.subrange(i as int, i + take)));
            if rest.len() <= width as int {
                assert(take == rest.len());
                assert(w@.subrange(i as int, i + take) =~= rest);
                assert(chunks_of(rest, width as int) == seq![rest]);
                assert(w@.skip(i + take) =~= Seq::<char>::empty());
                assert(chunks_of(Seq::<char>::empty(), width as int)
                    =~= Seq::<Seq<char>>::empty());
                assert(prev.map_values(|l: Vec<char>| l@) + (seq![rest]) =~= prev.map_values(
                    |l: Vec<char>| l@,
                ).push(rest));
                assert(lines@.map_values(|l: Vec<char>| l@) + chunks_of(
                    w@.skip(i + take),
                    width as int,
                ) =~= prev.map_values(|l: Vec<char>| l@) + chunks_of(rest, width as int));
            } else {
                assert(take == width);
                assert(rest.take(width as int) =~= w@.subrange(i as int, i + take));
                assert(rest.skip(width as int) =~= w@.skip(i + take));
                assert(chunks_of(rest, width as int) == seq![rest.take(width as int)]
                    + chunks_of(rest.skip(width as int), width as int));
                assert(lines@.map_values(|l: Vec<char>| l@) + chunks_of(
                    w@.skip(i + take),
                    width as int,
                ) =~= prev.map_values(|l: Vec<char>| l@) + chunks_of(rest, width as int));
            }
        }
        i += take;
    }
    proof {
        assert(w@.skip(w@.len() as int) =~= Seq::<char>::empty());
        assert(chunks_of(Seq::<char>::empty(), width as int) =~= Seq::<Seq<char>>::empty());
        assert(lines@.map_values(|l: Vec<char>| l@) + Seq::<Seq<char>>::empty()
            =~= lines@.map_values(|l: Vec<char>| l@));
    }
}

/// Wraps text into lines at most `width` characters wide, breaking at
/// spaces and cutting words longer than the whole width into
/// fixed-width pieces; an empty or blank text gives one empty line.
pub fn wrap_text_by_words(text: &str, width: usize) -> (r: Vec<String>)
    requires
        width >= 1,
    ensures
        r@.map_values(|l: String| l@) == wrap_spec(text@, width as int),
{
    let chars = str_chars(text);
    let words = split_words(chars.as_slice());
    let ghost swords = words_of(text@);
    let mut lines: Vec<Vec<char>> = Vec::new();
    let mut cur: Vec<char> = Vec::new();
    let mut i: usize = 0;
    proof {
        assert(swords.take(0) =~= Seq::<Seq<char>>::empty());
    }
    while i < words.len()
        invariant
            i <= words@.len(),
            width >= 1,
            words@.map_values(|w: Vec<char>| w@) == swords,
            (lines@.map_values(|l: Vec<char>| l@), cur@) == wrap_fold(
                swords.take(i as int),
                width as int,
            ),
        decreases words@.len() - i,
    {
        let w = &words[i];
        proof {
            assert(swords.take(i + 1).drop_last() =~= swords.take(i as int));
            assert(swords.take(i + 1).last() == swords[i as int]);
            assert(swords[i as int] == w@);
        }
        if cur.len() == 0 {
            if w.len() <= width {
                cur = clone_chars(w);
            } else {
                push_chunks(&mut lines, w.as_slice(), width);
            }
        } else {
            let fits = w.len() <= width && width - w.len() >= 1 && cur.len() <= width - w.len()
                - 1;
            proof {
                assert(fits == (cur@.len() + 1 + w@.len() <= width));
            }
            if fits {
                cur.push(' ');
                crate::text::append_chars(&mut cur, w.as_slice());
                proof {
                    assert(cur@ =~= wrap_fold(swords.take(i + 1), width as int).1);
                }
            } else {
                if w.len() <= width {
                    lines.push(cur);
                    cur = clone_chars(w);
                    proof {
                        let prev = lines@.drop_last();
                        assert(lines@.map_values(|l: Vec<char>| l@) =~= prev.map_values(
                            |l: Vec<char>| l@,
                        ).push(lines@.last()@));
                    }
                } else {
                    lines.push(cur);
                    cur = Vec::new();
                    proof {
                        let prev = lines@.drop_last();
                        assert(lines@.map_values(|l: Vec<char>| l@) =~= prev.map_values(
                            |l: Vec<char>| l@,
                        ).push(lines@.last()@));
                    }
                    push_chunks(&mut lines, w.as_slice(), width);
                }
            }
        }
        i += 1;
    }
    proof {
        assert(swords.take(swords.len() as int) =~= swords);
    }
    if cur.len() > 0 {
        let ghost prevl = lines@;
        lines.push(cur);
        proof {
            assert(lines@.map_values(|l: Vec<char>| l@) =~= prevl.map_values(
                |l: Vec<char>| l@,
            ).push(lines@.last()@));
        }
    }
    if lines.len() == 0 {
        let mut r: Vec<String> = Vec::new();
        r.push(String::new());
        proof {
            assert(r@.map_values(|l: String| l@) =~= seq![Seq::<char>::empty()]);
        }
        return r;
    }
    let mut r: Vec<String> = Vec::new();
    let mut k: usize = 0;
    while k < lines.len()
        invariant
            k <= lines@.len(),
            r@.map_values(|l: String| l@) == lines@.map_values(|l: Vec<char>| l@).take(k as int),
        decreases lines@.len() - k,
    {
        let lk = chars_str(lines[k].as_slice());
        let ghost prev = r@;
        r.push(lk);
        proof {
            assert(r@.map_values(|l: String| l@) =~= prev.map_values(|l: String| l@).push(
                r@.last()@,
            ));
            assert(lines@.map_values(|l: Vec<char>| l@).take(k + 1) =~= lines@.map_values(
                |l: Vec<char>| l@,
            ).take(k as int).push(lines@[k as int]@));
        }
        k += 1;
    }
    proof {
        assert(lines@.map_values(|l: Vec<char>| l@).take(lines@.len() as int) =~= lines@.map_values(
            |l: Vec<char>| l@,
        ));
    }
    r
}

/// A copy of a character list.
fn clone_chars(v: &Vec<char>) -> (r: Vec<char>)
    ensures
        r@ == v@,
{
    let mut r: Vec<char> = Vec::new();
    crate::text::append_chars(&mut r, v.as_slice());
    proof {
        assert(r@ =~= v@);
    }
    r
}

/// The text with every `ESC … m` color sequence removed, tracked by a
/// small in-escape flag.
pub open spec fn strip_from(s: Seq<char>, i: int, in_esc: bool) -> Seq<char>
    decreases s.len() - i,
{
    if i < 0 || i >= s.len() {
        Seq::empty()
    } else if in_esc {
        strip_from(s, i + 1, s[i] != 'm')
    } else if s[i] == '\u{1b}' {
        strip_from(s, i + 1, true)
    } else {
        seq![s[i]] + strip_from(s, i + 1, false)
    }
}

/// Removes ANSI color sequences, leaving the visible text.
pub fn strip_ansi_codes(s: &str) -> (r: String)
    ensures
        r@ == strip_from(s@, 0, false),
{
    let v = str_chars(s);
    let mut out: Vec<char> = Vec::new();
    let mut i: usize = 0;
    let mut in_esc = false;
    while i < v.len()
        invariant
            i <= v@.len(),
            v@ == s@,
            strip_from(s@, 0, false) == out@ + strip_from(s@, i as int, in_esc),
        decreases v@.len() - i,
    {
        let c = v[i];
        if in_esc {
            if c == 'm' {
                in_esc = false;
            }
        } else if c == '\u{1b}' {
            in_esc = true;
        } else {
            let ghost prev = out@;
            out.push(c);
            proof {
                assert(prev + (seq![s@[i as int]] + strip_from(s@, i + 1, false)) =~= out@
                    + strip_from(s@, i + 1, false));
            }
        }
        i += 1;
    }
    proof {
        assert(strip_from(s@, v@.len() as int, in_esc) =~= Seq::<char>::empty());
        assert(out@ + Seq::<char>::empty() =~= out@);
    }
    chars_str(out.as_slice())
}

/// The run of complete `ESC … m` sequences at the start of the text.
pub open spec fn ansi_prefix_from(s: Seq<char>, i: int) -> Seq<char>
    decreases s.len() - i,
    when 0 <= i
    via ansi_prefix_from_decreases
{
    if i < s.len() && s[i] == '\u{1b}' {
        let m = find_m(s, i + 1);
        if m < s.len() {
            s.subrange(i, m + 1) + ansi_prefix_from(s, m + 1)
        } else {
            Seq::empty()
        }
    } else {
        Seq::empty()
    }
}

#[via_fn]
proof fn ansi_prefix_from_decreases(s: Seq<char>, i: int) {
    if i < s.len() && s[i] == '\u{1b}' {
        lemma_find_m_bounds(s, i + 1);
    }
}

/// The index of the next `m` at or after `i`, or the length.
pub open spec fn find_m(s: Seq<char>, i: int) -> int
    decreases s.len() - i,
{
    if i < 0 || i >= s.len() {
        s.len() as int
    } else if s[i] == 'm' {
        i
    } else {
        find_m(s, i + 1)
    }
}

proof fn lemma_find_m_bounds(s: Seq<char>, i: int)
    requires
        0 <= i,
    ensures
        find_m(s, i) <= s.len(),
        find_m(s, i) >= i || find_m(s, i) == s.len(),
    decreases s.len() - i,
{
    if 0 <= i < s.len() && s[i] != 'm' {
        lemma_find_m_bounds(s, i + 1);
    }
}

/// The leading color codes of a styled text, and the reset code that
/// closes them: empty when the text does not start with a color code.
pub fn extract_ansi_codes(s: &str) -> (r: (String, String))
    ensures
        r.0@ == ansi_prefix_from(s@, 0),
        r.1@ == (if ansi_prefix_from(s@, 0).len() > 0 {
            "\u{1b}[0m"@
        } else {
            Seq::<char>::empty()
        }),
{
    let v = str_chars(s);
    let mut out: Vec<char> = Vec::new();
    let mut i: usize = 0;
    proof {
        assert(out@ + ansi_prefix_from(s@, 0) =~= ansi_prefix_from(s@, 0));
    }
    while i < v.len() && v[i] == '\u{1b}'
        invariant
            i <= v@.len(),
            v@ == s@,
            ansi_prefix_from(s@, 0) == out@ + ansi_prefix_from(s@, i as int),
        ensures
            ansi_prefix_from(s@, 0) == out@,
        decreases v@.len() - i,
    {
        proof {
            lemma_find_m_bounds(s@, i + 1);
        }
        let mut m = i + 1;
        while m < v.len() && v[m] != 'm'
            invariant
                i + 1 <= m <= v@.len(),
                v@ == s@,
                find_m(s@, i + 1) == find_m(s@, m as int),
            decreases v@.len() - m,
        {
            m += 1;
        }
        proof {
            if m < v@.len() {
                assert(find_m(s@, m as int) == m);
            } else {
                assert(find_m(s@, m as int) == s@.len());
            }
        }
        if m >= v.len() {
            proof {
                assert(ansi_prefix_from(s@, i as int) =~= Seq::<char>::empty());
                assert(out@ + Seq::<char>::empty() =~= out@);
                assert(ansi_prefix_from(s@, 0) == out@);
            }
            break ;
        }
        let ghost prev = out@;
        let total = v.len();
        let mut j = i;
        while j <= m
            invariant
                i <= j <= m + 1,
                m < v@.len(),
                total == v@.len(),
                v@ == s@,
                out@ == prev + s@.subrange(i as int, j as int),
            decreases m + 1 - j,
        {
            out.push(v[j]);
            proof {
                assert(s@.subrange(i as int, j + 1) =~= s@.subrange(i as int, j as int).push(
                    s@[j as int],
                ));
            }
            j += 1;
        }
        proof {
            assert(ansi_prefix_from(s@, i as int) == s@.subrange(i as int, m + 1)
                + ansi_prefix_from(s@, m + 1));
            assert(prev + (s@.subrange(i as int, m + 1) + ansi_prefix_from(s@, m + 1)) =~= out@
                + ansi_prefix_from(s@, m + 1));
        }
        i = m + 1;
    }
    let prefix = chars_str(out.as_slice());
    let suffix = if prefix.as_str().is_empty() {
        String::new()
    } else {
        String::from_str("\u{1b}[0m")
    };
    (prefix, suffix)
}

/// The date column of a listing: the `DD-MM-YYYY` form, or the word
/// `empty` for a task without a date.
pub fn format_date_for_display(date: Option<Date>) -> (r: String)
    ensures
        r@ == (match date {
            Some(d) => date_dmy_spec(d),
            None => "empty"@,
        }),
{
    match date {
        Some(d) => format_date_dmy(&d),
        None => String::from_str("empty"),
    }
}

/// The width the presenter wraps to: the terminal width when it is
/// known and narrower than 80 columns, else 80.
pub fn get_max_line_width(terminal_width: Option<u16>) -> (r: usize)
    ensures
        r == (match terminal_width {
            Some(w) => if (w as int) < 80 {
                w as int
            } else {
                80int
            },
            None => 80int,
        }),
{
    match terminal_width {
        Some(w) => {
            let wu = w as usize;
            if wu < 80 {
                wu
            } else {
                80
            }
        },
        None => 80,
    }
}

/// Whether a task's date should be painted as overdue: it has a date
/// strictly before today and is not done.
pub fn is_overdue(date: &Option<Date>, done: bool, today: &Date) -> (r: bool)
    ensures
        r == (date matches Some(d) && date_lt(*d, *today) && !done),
{
    match date {
        Some(d) => crate::dates::date_before(d, today) && !done,
        None => false,
    }
}

} // verus!
