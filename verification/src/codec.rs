//! The on-disk document: a pretty-printed list of task records with the
//! fields `id`, `text`, `date` and `done`, and the parser that reads it
//! back. Corruption is any text the parser refuses.
//!
//! The grammar is the canonical rendering with free whitespace between
//! tokens: one array of records, each record its four fields in order,
//! `date` either a `YYYY-MM-DD` string or `null`. Parsing what
//! `render_document` wrote gives back exactly the tasks written; that
//! round trip is proved below.

use vstd::prelude::*;
use crate::dates::{date_iso_spec, format_date_iso_chars, parse_iso_chars, parse_iso_spec, Date};
use crate::numbers::{
    all_digits, dec_spec, digit_val, digits_value, fmt_u32, is_digit, lemma_dec_spec_digits,
    lemma_digits_value_upper, pow10,
};
use crate::task::{tasks_wf, Task};
use crate::text::{all_whitespace, chars_str, is_blank, str_chars};

verus! {

/// Whitespace between document tokens: space, tab, line feed, carriage
/// return.
pub open spec fn doc_ws(c: char) -> bool {
    c == ' ' || c == '\t' || c == '\n' || c == '\r'
}

/// A hexadecimal digit for the escape of a control character.
pub open spec fn hex_digit(d: int) -> char {
    if d == 10 {
        'a'
    } else if d == 11 {
        'b'
    } else if d == 12 {
        'c'
    } else if d == 13 {
        'd'
    } else if d == 14 {
        'e'
    } else if d == 15 {
        'f'
    } else {
        crate::numbers::digit_char(d)
    }
}

/// The value of a hexadecimal digit character, or -1.
pub open spec fn hex_val(c: char) -> int {
    if is_digit(c) {
        digit_val(c)
    } else if 'a' <= c && c <= 'f' {
        c as u32 - 'a' as u32 + 10
    } else if 'A' <= c && c <= 'F' {
        c as u32 - 'A' as u32 + 10
    } else {
        -1
    }
}

/// How one character is written inside a quoted string.
pub open spec fn escape_char(c: char) -> Seq<char> {
    if c == '"' {
        seq!['\\', '"']
    } else if c == '\\' {
        seq!['\\', '\\']
    } else if c == '\u{8}' {
        seq!['\\', 'b']
    } else if c == '\t' {
        seq!['\\', 't']
    } else if c == '\n' {
        seq!['\\', 'n']
    } else if c == '\u{c}' {
        seq!['\\', 'f']
    } else if c == '\r' {
        seq!['\\', 'r']
    } else if (c as u32) < 0x20 {
        seq!['\\', 'u', '0', '0', hex_digit(c as u32 as int / 16), hex_digit(c as u32 as int % 16)]
    } else {
        seq![c]
    }
}

/// A whole text escaped for quoting.
pub open spec fn escape_spec(s: Seq<char>) -> Seq<char>
    decreases s.len(),
{
    if s.len() == 0 {
        Seq::empty()
    } else {
        escape_char(s[0]) + escape_spec(s.drop_first())
    }
}

fn hex_digit_of(d: u32) -> (c: char)
    requires
        d < 16,
    ensures
        c == hex_digit(d as int),
{
    if d == 10 {
        'a'
    } else if d == 11 {
        'b'
    } else if d == 12 {
        'c'
    } else if d == 13 {
        'd'
    } else if d == 14 {
        'e'
    } else if d == 15 {
        'f'
    } else {
        crate::numbers::digit_char_of(d)
    }
}

/// Appends the escaped form of `text` to `out`.
fn push_escaped(out: &mut Vec<char>, text: &[char])
    ensures
        final(out)@ == old(out)@ + escape_spec(text@),
{
    let ghost orig = out@;
    let mut i: usize = 0;
    proof {
        lemma_escape_take(text@, 0);
    }
    while i < text.len()
        invariant
            i <= text@.len(),
            out@ == orig + escape_spec(text@.take(i as int)),
        decreases text@.len() - i,
    {
        let c = text[i];
        let cv = c as u32;
        if c == '"' {
            out.push('\\');
            out.push('"');
        } else if c == '\\' {
            out.push('\\');
            out.push('\\');
        } else if c == '\u{8}' {
            out.push('\\');
            out.push('b');
        } else if c == '\t' {
            out.push('\\');
            out.push('t');
        } else if c == '\n' {
            out.push('\\');
            out.push('n');
        } else if c == '\u{c}' {
            out.push('\\');
            out.push('f');
        } else if c == '\r' {
            out.push('\\');
            out.push('r');
        } else if cv < 0x20 {
            out.push('\\');
            out.push('u');
            out.push('0');
            out.push('0');
            out.push(hex_digit_of(cv / 16));
            out.push(hex_digit_of(cv % 16));
        } else {
            out.push(c);
        }
        proof {
            lemma_escape_take(text@, i + 1);
            assert(text@.take(i + 1).drop_last() =~= text@.take(i as int));
            assert(out@ =~= orig + escape_spec(text@.take(i + 1)));
        }
        i += 1;
    }
    proof {
        assert(text@.take(text@.len() as int) =~= text@);
    }
}

/// Escaping a prefix and then one more character appends that
/// character's escape.
proof fn lemma_escape_take(s: Seq<char>, k: int)
    requires
        0 <= k <= s.len(),
    ensures
        escape_spec(s.take(k)) == if k == 0 {
            Seq::<char>::empty()
        } else {
            escape_spec(s.take(k - 1)) + escape_char(s[k - 1])
        },
{
    if k > 0 {
        lemma_escape_snoc(s.take(k));
        assert(s.take(k).drop_last() =~= s.take(k - 1));
        assert(s.take(k).last() == s[k - 1]);
    } else {
        assert(s.take(0) =~= Seq::<char>::empty());
    }
}

/// Escaping distributes over appending one character at the end.
proof fn lemma_escape_snoc(s: Seq<char>)
    requires
        s.len() > 0,
    ensures
        escape_spec(s) == escape_spec(s.drop_last()) + escape_char(s.last()),
    decreases s.len(),
{
    if s.len() == 1 {
        assert(s.drop_first() =~= Seq::<char>::empty());
        assert(s.drop_last() =~= Seq::<char>::empty());
        assert(escape_spec(s) == escape_char(s[0]) + escape_spec(Seq::<char>::empty()));
        assert(escape_char(s[0]) + Seq::<char>::empty() =~= escape_char(s[0]));
        assert(Seq::<char>::empty() + escape_char(s[0]) =~= escape_char(s[0]));
    } else {
        lemma_escape_snoc(s.drop_first());
        assert(s.drop_first().drop_last() =~= s.drop_last().drop_first());
        assert(s.drop_first().last() == s.last());
        assert(s.drop_last()[0] == s[0]);
        assert(escape_spec(s) == escape_char(s[0]) + escape_spec(s.drop_first()));
        assert(escape_spec(s.drop_last()) == escape_char(s[0]) + escape_spec(
            s.drop_last().drop_first(),
        ));
        assert(escape_char(s[0]) + (escape_spec(s.drop_first().drop_last()) + escape_char(
            s.last(),
        )) =~= (escape_char(s[0]) + escape_spec(s.drop_last().drop_first())) + escape_char(
            s.last(),
        ));
    }
}

/// The rendering of one record, at the given indentation.
pub open spec fn record_spec(t: Task) -> Seq<char> {
    seq!['{', '\n', ' ', ' ', ' ', ' '] + "\"id\": "@ + dec_spec(t.id as int) + seq![
        ',',
        '\n',
        ' ',
        ' ',
        ' ',
        ' ',
    ] + "\"text\": \""@ + escape_spec(t.text@) + seq!['"', ',', '\n', ' ', ' ', ' ', ' ']
        + "\"date\": "@ + (match t.date {
        Some(d) => seq!['"'] + date_iso_spec(d) + seq!['"'],
        None => "null"@,
    }) + seq![',', '\n', ' ', ' ', ' ', ' '] + "\"done\": "@ + (if t.done {
        "true"@
    } else {
        "false"@
    }) + seq!['\n', ' ', ' ', '}']
}

/// The rendering of the record list after the opening bracket.
pub open spec fn records_spec(tasks: Seq<Task>) -> Seq<char>
    decreases tasks.len(),
{
    if tasks.len() == 0 {
        Seq::empty()
    } else if tasks.len() == 1 {
        seq![' ', ' '] + record_spec(tasks[0]) + seq!['\n']
    } else {
        seq![' ', ' '] + record_spec(tasks[0]) + seq![',', '\n'] + records_spec(tasks.drop_first())
    }
}

/// The whole document.
pub open spec fn document_spec(tasks: Seq<Task>) -> Seq<char> {
    if tasks.len() == 0 {
        "[]"@
    } else {
        seq!['[', '\n'] + records_spec(tasks) + seq![']']
    }
}

/// Renders the store as the pretty-printed document.
pub fn render_document(tasks: &Vec<Task>) -> (r: String)
    ensures
        r@ == document_spec(tasks@),
{
    if tasks.len() == 0 {
        let s = String::from_str("[]");
        return s;
    }
    let mut out: Vec<char> = Vec::new();
    out.push('[');
    out.push('\n');
    let ghost header = seq!['[', '\n'];
    let mut i: usize = 0;
    proof {
        assert(out@ =~= header);
        assert(tasks@.skip(0) =~= tasks@);
    }
    while i < tasks.len()
        invariant
            i <= tasks@.len(),
            tasks@.len() > 0,
            out@ + records_spec(tasks@.skip(i as int)) == header + records_spec(tasks@),
        decreases tasks@.len() - i,
    {
        out.push(' ');
        out.push(' ');
        push_record(&mut out, &tasks[i]);
        if i + 1 < tasks.len() {
            out.push(',');
            out.push('\n');
        } else {
            out.push('\n');
        }
        proof {
            let rest = tasks@.skip(i as int);
            assert(rest.len() > 0);
            assert(rest[0] == tasks@[i as int]);
            assert(rest.drop_first() =~= tasks@.skip(i + 1));
            if rest.len() == 1 {
                assert(records_spec(rest) == seq![' ', ' '] + record_spec(rest[0]) + seq!['\n']);
                assert(records_spec(tasks@.skip(i + 1)) == Seq::<char>::empty());
            } else {
                assert(records_spec(rest) == seq![' ', ' '] + record_spec(rest[0]) + seq![
                    ',',
                    '\n',
                ] + records_spec(rest.drop_first()));
            }
            assert(out@ + records_spec(tasks@.skip(i + 1)) =~= header + records_spec(tasks@));
        }
        i += 1;
    }
    out.push(']');
    proof {
        assert(tasks@.skip(tasks@.len() as int) =~= Seq::<Task>::empty());
        assert(records_spec(Seq::<Task>::empty()) == Seq::<char>::empty());
        assert(out@ =~= header + records_spec(tasks@) + seq![']']);
        assert(out@ =~= document_spec(tasks@));
    }
    chars_str(out.as_slice())
}

/// Appends the rendering of one record.
#[verifier::rlimit(100)]
fn push_record(out: &mut Vec<char>, t: &Task)
    ensures
        final(out)@ == old(out)@ + record_spec(*t),
{
    push_lit(out, "{\n    \"id\": ");
    let idc = fmt_u32(t.id as u32);
    crate::text::append_chars(out, idc.as_slice());
    push_lit(out, ",\n    \"text\": \"");
    let text_chars = str_chars(t.text.as_str());
    push_escaped(out, text_chars.as_slice());
    push_lit(out, "\",\n    \"date\": ");
    match &t.date {
        Some(d) => {
            out.push('"');
            let dc = format_date_iso_chars(d);
            crate::text::append_chars(out, dc.as_slice());
            out.push('"');
        },
        None => {
            push_lit(out, "null");
        },
    }
    push_lit(out, ",\n    \"done\": ");
    if t.done {
        push_lit(out, "true");
    } else {
        push_lit(out, "false");
    }
    push_lit(out, "\n  }");
    proof {
        reveal_strlit("{\n    \"id\": ");
        reveal_strlit("\"id\": ");
        reveal_strlit(",\n    \"text\": \"");
        reveal_strlit("\"text\": \"");
        reveal_strlit("\",\n    \"date\": ");
        reveal_strlit("\"date\": ");
        reveal_strlit(",\n    \"done\": ");
        reveal_strlit("\"done\": ");
        reveal_strlit("null");
        reveal_strlit("true");
        reveal_strlit("false");
        reveal_strlit("\n  }");
        assert(final(out)@ =~= old(out)@ + record_spec(*t));
    }
}

/// Appends a literal.
fn push_lit(out: &mut Vec<char>, lit: &str)
    ensures
        final(out)@ == old(out)@ + lit@,
{
    let v = str_chars(lit);
    crate::text::append_chars(out, v.as_slice());
}

/// The input after any leading token whitespace.
pub open spec fn p_ws(s: Seq<char>) -> Seq<char>
    decreases s.len(),
{
    if s.len() > 0 && doc_ws(s[0]) {
        p_ws(s.drop_first())
    } else {
        s
    }
}

pub open spec fn starts_with(s: Seq<char>, lit: Seq<char>) -> bool {
    s.len() >= lit.len() && s.take(lit.len() as int) == lit
}

/// What one escape after a backslash decodes to, or nothing when the
/// escape is not one this format uses. The `\u` form covers exactly the
/// control characters the writer escapes that way.
pub open spec fn unescape_simple(e: char) -> Option<char> {
    if e == '"' {
        Some('"')
    } else if e == '\\' {
        Some('\\')
    } else if e == '/' {
        Some('/')
    } else if e == 'b' {
        Some('\u{8}')
    } else if e == 'f' {
        Some('\u{c}')
    } else if e == 'n' {
        Some('\n')
    } else if e == 'r' {
        Some('\r')
    } else if e == 't' {
        Some('\t')
    } else {
        None
    }
}

/// A parsed prefix: the decoded value and the input that follows it.
pub open spec fn p_cons(c: char, r: Option<(Seq<char>, Seq<char>)>) -> Option<
    (Seq<char>, Seq<char>),
> {
    match r {
        Some((t, rest)) => Some((seq![c] + t, rest)),
        None => None,
    }
}

/// The body of a quoted string, read after the opening quote: plain
/// characters, the named escapes, and `\u00XX` for control characters.
/// Raw control characters and any other escape are refused.
pub open spec fn p_string_body(s: Seq<char>) -> Option<(Seq<char>, Seq<char>)>
    decreases s.len(),
{
    if s.len() == 0 {
        None
    } else if s[0] == '"' {
        Some((Seq::empty(), s.drop_first()))
    } else if s[0] == '\\' {
        if s.len() >= 2 && s[1] == 'u' {
            if s.len() >= 6 && s[2] == '0' && s[3] == '0' && hex_val(s[4]) >= 0 && hex_val(s[5])
                >= 0 && hex_val(s[4]) * 16 + hex_val(s[5]) < 0x20 {
                p_cons(((hex_val(s[4]) * 16 + hex_val(s[5])) as u8) as char, p_string_body(s.skip(6)))
            } else {
                None
            }
        } else if s.len() >= 2 && unescape_simple(s[1]) is Some {
            p_cons(unescape_simple(s[1])->0, p_string_body(s.skip(2)))
        } else {
            None
        }
    } else if (s[0] as u32) < 0x20 {
        None
    } else {
        p_cons(s[0], p_string_body(s.drop_first()))
    }
}

/// The length of the digit run at the head of the input.
pub open spec fn digits_run(s: Seq<char>) -> int
    decreases s.len(),
{
    if s.len() > 0 && is_digit(s[0]) {
        1 + digits_run(s.drop_first())
    } else {
        0
    }
}

/// An unsigned integer: one or more digits, no leading zero.
pub open spec fn p_number(s: Seq<char>) -> Option<(int, Seq<char>)> {
    let k = digits_run(s);
    if k == 0 {
        None
    } else if k > 1 && s[0] == '0' {
        None
    } else {
        Some((digits_value(s.take(k)), s.skip(k)))
    }
}

/// The date field value: `null`, or a quoted `YYYY-MM-DD` date.
pub open spec fn p_date_value(s: Seq<char>) -> Option<(Option<Date>, Seq<char>)> {
    if starts_with(s, "null"@) {
        Some((None, s.skip(4)))
    } else if s.len() > 0 && s[0] == '"' {
        match p_string_body(s.drop_first()) {
            Some((content, rest)) => match parse_iso_spec(content) {
                Some(d) => Some((Some(d), rest)),
                None => None,
            },
            None => None,
        }
    } else {
        None
    }
}

/// The done field value.
pub open spec fn p_bool(s: Seq<char>) -> Option<(bool, Seq<char>)> {
    if starts_with(s, "true"@) {
        Some((true, s.skip(4)))
    } else if starts_with(s, "false"@) {
        Some((false, s.skip(5)))
    } else {
        None
    }
}

/// A record as the parser sees it, with the text as a character
/// sequence; `rec_of` relates it to the executable task type.
pub struct TaskRec {
    pub id: u8,
    pub text: Seq<char>,
    pub date: Option<Date>,
    pub done: bool,
}

/// The record a task denotes.
pub open spec fn rec_of(t: Task) -> TaskRec {
    TaskRec { id: t.id, text: t.text@, date: t.date, done: t.done }
}

/// One record: the four fields in order, each value checked against the
/// schema (identifier in 1..=255, text not blank, date a real day).
pub open spec fn p_record(s: Seq<char>) -> Option<(TaskRec, Seq<char>)> {
    let s1 = p_ws(s);
    if s1.len() > 0 && s1[0] == '{' {
        let s2 = p_ws(s1.drop_first());
        if starts_with(s2, "\"id\""@) {
            let s3 = p_ws(s2.skip(4));
            if s3.len() > 0 && s3[0] == ':' {
                let s4 = p_ws(s3.drop_first());
                match p_number(s4) {
                    Some((idv, s5)) => if 1 <= idv <= 255 {
                        p_record_text(s5, idv as u8)
                    } else {
                        None
                    },
                    None => None,
                }
            } else {
                None
            }
        } else {
            None
        }
    } else {
        None
    }
}

pub open spec fn p_record_text(s: Seq<char>, id: u8) -> Option<(TaskRec, Seq<char>)> {
    let s6 = p_ws(s);
    if s6.len() > 0 && s6[0] == ',' {
        let s7 = p_ws(s6.drop_first());
        if starts_with(s7, "\"text\""@) {
            let s8 = p_ws(s7.skip(6));
            if s8.len() > 0 && s8[0] == ':' {
                let s9 = p_ws(s8.drop_first());
                if s9.len() > 0 && s9[0] == '"' {
                    match p_string_body(s9.drop_first()) {
                        Some((text, s10)) => if !all_whitespace(text) {
                            p_record_date(s10, id, text)
                        } else {
                            None
                        },
                        None => None,
                    }
                } else {
                    None
                }
            } else {
                None
            }
        } else {
            None
        }
    } else {
        None
    }
}

pub open spec fn p_record_date(s: Seq<char>, id: u8, text: Seq<char>) -> Option<
    (TaskRec, Seq<char>),
> {
    let s11 = p_ws(s);
    if s11.len() > 0 && s11[0] == ',' {
        let s12 = p_ws(s11.drop_first());
        if starts_with(s12, "\"date\""@) {
            let s13 = p_ws(s12.skip(6));
            if s13.len() > 0 && s13[0] == ':' {
                let s14 = p_ws(s13.drop_first());
                match p_date_value(s14) {
                    Some((date, s15)) => p_record_done(s15, id, text, date),
                    None => None,
                }
            } else {
                None
            }
        } else {
            None
        }
    } else {
        None
    }
}

pub open spec fn p_record_done(s: Seq<char>, id: u8, text: Seq<char>, date: Option<Date>) -> Option<
    (TaskRec, Seq<char>),
> {
    let s16 = p_ws(s);
    if s16.len() > 0 && s16[0] == ',' {
        let s17 = p_ws(s16.drop_first());
        if starts_with(s17, "\"done\""@) {
            let s18 = p_ws(s17.skip(6));
            if s18.len() > 0 && s18[0] == ':' {
                let s19 = p_ws(s18.drop_first());
                match p_bool(s19) {
                    Some((done, s20)) => {
                        let s21 = p_ws(s20);
                        if s21.len() > 0 && s21[0] == '}' {
                            Some((TaskRec { id, text, date, done }, s21.drop_first()))
                        } else {
                            None
                        }
                    },
                    None => None,
                }
            } else {
                None
            }
        } else {
            None
        }
    } else {
        None
    }
}

/// The record list after the first record, each preceded by a comma,
/// ending at the closing bracket.
pub open spec fn p_more_records(s: Seq<char>, first: TaskRec) -> Option<
    (Seq<TaskRec>, Seq<char>),
>
    decreases s.len(),
{
    let s1 = p_ws(s);
    if s1.len() > 0 && s1[0] == ']' {
        Some((seq![first], s1.drop_first()))
    } else if s1.len() > 0 && s1[0] == ',' {
        match p_record(s1.drop_first()) {
            Some((t, rest)) => {
                if rest.len() < s.len() {
                    match p_more_records(rest, t) {
                        Some((ts, tail)) => Some((seq![first] + ts, tail)),
                        None => None,
                    }
                } else {
                    None
                }
            },
            None => None,
        }
    } else {
        None
    }
}

/// The record identifiers are pairwise distinct.
pub open spec fn recs_distinct(ts: Seq<TaskRec>) -> bool {
    forall|i: int, j: int| 0 <= i < j < ts.len() ==> ts[i].id != ts[j].id
}

/// Prepending already-parsed records to a parse of the remainder.
pub open spec fn prepend_recs(pre: Seq<TaskRec>, o: Option<(Seq<TaskRec>, Seq<char>)>) -> Option<
    (Seq<TaskRec>, Seq<char>),
> {
    match o {
        Some((ts, tail)) => Some((pre + ts, tail)),
        None => None,
    }
}

/// The whole document: one array of records, nothing after it, and
/// pairwise distinct identifiers.
pub open spec fn doc_parse_spec(s: Seq<char>) -> Option<Seq<TaskRec>> {
    let s1 = p_ws(s);
    if s1.len() > 0 && s1[0] == '[' {
        let s2 = p_ws(s1.drop_first());
        if s2.len() > 0 && s2[0] == ']' {
            if p_ws(s2.drop_first()).len() == 0 {
                Some(Seq::empty())
            } else {
                None
            }
        } else {
            match p_record(s1.drop_first()) {
                Some((t, rest)) => match p_more_records(rest, t) {
                    Some((ts, tail)) => if p_ws(tail).len() == 0 && recs_distinct(ts) {
                        Some(ts)
                    } else {
                        None
                    },
                    None => None,
                },
                None => None,
            }
        }
    } else {
        None
    }
}

/// Where parsing stopped when the document was refused.
#[derive(Debug, Clone, Copy, PartialEq, Eq, Structural)]
pub struct ParseError {
    /// A character offset near the refusal, for the report to the user.
    pub at: usize,
}

/// The index after the leading token whitespace.
fn skip_doc_ws(v: &[char], i: usize) -> (j: usize)
    requires
        i <= v@.len(),
    ensures
        i <= j <= v@.len(),
        v@.skip(j as int) == p_ws(v@.skip(i as int)),
{
    let mut j = i;
    while j < v.len() && (v[j] == ' ' || v[j] == '\t' || v[j] == '\n' || v[j] == '\r')
        invariant
            i <= j <= v@.len(),
            p_ws(v@.skip(i as int)) == p_ws(v@.skip(j as int)),
        decreases v@.len() - j,
    {
        proof {
            assert(v@.skip(j as int)[0] == v@[j as int]);
            assert(v@.skip(j as int).drop_first() =~= v@.skip(j + 1));
        }
        j += 1;
    }
    proof {
        if j < v@.len() {
            assert(v@.skip(j as int)[0] == v@[j as int]);
            assert(!doc_ws(v@.skip(j as int)[0]));
        }
    }
    j
}

/// Matches a literal at `i`.
fn match_lit(v: &[char], i: usize, lit: &str) -> (r: Option<usize>)
    requires
        i <= v@.len(),
    ensures
        r is Some <==> starts_with(v@.skip(i as int), lit@),
        r matches Some(j) ==> {
            &&& j as int == i + lit@.len()
            &&& j <= v@.len()
            &&& v@.skip(j as int) == v@.skip(i as int).skip(lit@.len() as int)
        },
{
    let lc = str_chars(lit);
    let n = lc.len();
    if v.len() - i < n {
        proof {
            assert(v@.skip(i as int).len() < lit@.len());
        }
        return None;
    }
    let total = v.len();
    let mut k: usize = 0;
    while k < n
        invariant
            k <= n,
            n == lit@.len(),
            lc@ == lit@,
            total == v@.len(),
            i + n <= v@.len(),
            forall|p: int| 0 <= p < k ==> v@[i + p] == lit@[p],
        decreases n - k,
    {
        if v[i + k] != lc[k] {
            proof {
                assert(v@.skip(i as int).take(lit@.len() as int)[k as int] == v@[i + k]);
                assert(v@.skip(i as int).take(lit@.len() as int) != lit@);
            }
            return None;
        }
        k += 1;
    }
    proof {
        assert(v@.skip(i as int).take(lit@.len() as int) =~= lit@);
        assert(v@.skip(i as int).skip(lit@.len() as int) =~= v@.skip(i + lit@.len()));
    }
    Some(i + n)
}

/// Reads a quoted string body starting after the opening quote.
fn parse_string_body(v: &[char], i: usize) -> (r: Option<(Vec<char>, usize)>)
    requires
        i <= v@.len(),
    ensures
        r is Some <==> p_string_body(v@.skip(i as int)) is Some,
        r matches Some((t, j)) ==> {
            &&& i <= j <= v@.len()
            &&& p_string_body(v@.skip(i as int)) matches Some((st, rest)) && st == t@ && rest
                == v@.skip(j as int)
        },
{
    let mut out: Vec<char> = Vec::new();
    let mut pos = i;
    proof {
        lemma_p_cons_all_nil(v@.skip(i as int));
    }
    loop
        invariant
            i <= pos <= v@.len(),
            p_string_body(v@.skip(i as int)) == p_cons_all(
                out@,
                p_string_body(v@.skip(pos as int)),
            ),
        decreases v@.len() - pos,
    {
        proof {
            assert(v@.skip(pos as int).len() == v@.len() - pos);
            if pos < v@.len() {
                assert(v@.skip(pos as int)[0] == v@[pos as int]);
                assert(v@.skip(pos as int).drop_first() =~= v@.skip(pos + 1));
            }
        }
        if pos >= v.len() {
            return None;
        }
        let c = v[pos];
        if c == '"' {
            proof {
                assert(p_string_body(v@.skip(pos as int)) == Some(
                    (Seq::<char>::empty(), v@.skip(pos + 1)),
                ));
                assert(out@ + Seq::<char>::empty() =~= out@);
            }
            return Some((out, pos + 1));
        }
        if c == '\\' {
            if v.len() - pos < 2 {
                proof {
                    assert(v@.skip(pos as int).len() < 2);
                }
                return None;
            }
            let e = v[pos + 1];
            proof {
                assert(v@.skip(pos as int)[1] == v@[pos + 1]);
            }
            if e == 'u' {
                if v.len() - pos < 6 {
                    proof {
                        assert(v@.skip(pos as int).len() < 6);
                    }
                    return None;
                }
                proof {
                    assert(v@.skip(pos as int)[2] == v@[pos + 2]);
                    assert(v@.skip(pos as int)[3] == v@[pos + 3]);
                    assert(v@.skip(pos as int)[4] == v@[pos + 4]);
                    assert(v@.skip(pos as int)[5] == v@[pos + 5]);
                    assert(v@.skip(pos as int).skip(6) =~= v@.skip(pos + 6));
                }
                if v[pos + 2] != '0' || v[pos + 3] != '0' {
                    return None;
                }
                let h1 = hex_val_of(v[pos + 4]);
                let h2 = hex_val_of(v[pos + 5]);
                if h1 < 0 || h2 < 0 {
                    return None;
                }
                let val = (h1 * 16 + h2) as u32;
                if val >= 0x20 {
                    return None;
                }
                let ghost prev = out@;
                out.push((val as u8) as char);
                proof {
                    lemma_p_cons_all_snoc(prev, (val as u8) as char, v@.skip(pos + 6));
                }
                pos = pos + 6;
            } else {
                let decoded: Option<char> = if e == '"' {
                    Some('"')
                } else if e == '\\' {
                    Some('\\')
                } else if e == '/' {
                    Some('/')
                } else if e == 'b' {
                    Some('\u{8}')
                } else if e == 'f' {
                    Some('\u{c}')
                } else if e == 'n' {
                    Some('\n')
                } else if e == 'r' {
                    Some('\r')
                } else if e == 't' {
                    Some('\t')
                } else {
                    None
                };
                match decoded {
                    Some(d) => {
                        proof {
                            assert(v@.skip(pos as int).skip(2) =~= v@.skip(pos + 2));
                            assert(unescape_simple(v@[pos + 1]) == Some(d));
                        }
                        let ghost prev = out@;
                        out.push(d);
                        proof {
                            lemma_p_cons_all_snoc(prev, d, v@.skip(pos + 2));
                        }
                        pos = pos + 2;
                    },
                    None => {
                        return None;
                    },
                }
            }
        } else if (c as u32) < 0x20 {
            return None;
        } else {
            let ghost prev = out@;
            out.push(c);
            proof {
                lemma_p_cons_all_snoc(prev, c, v@.skip(pos + 1));
            }
            pos = pos + 1;
        }
    }
}

/// Many characters prepended to a parse of the remainder.
pub open spec fn p_cons_all(pre: Seq<char>, r: Option<(Seq<char>, Seq<char>)>) -> Option<
    (Seq<char>, Seq<char>),
> {
    match r {
        Some((t, rest)) => Some((pre + t, rest)),
        None => None,
    }
}

/// No prefix yet: the parse of the remainder is the whole parse.
proof fn lemma_p_cons_all_nil(s: Seq<char>)
    ensures
        p_cons_all(Seq::empty(), p_string_body(s)) == p_string_body(s),
{
    match p_string_body(s) {
        Some((t, rest)) => {
            assert(Seq::<char>::empty() + t =~= t);
        },
        None => {},
    }
}

/// Extending the prefix by the next decoded character.
proof fn lemma_p_cons_all_snoc(pre: Seq<char>, c: char, s: Seq<char>)
    ensures
        p_cons_all(pre, p_cons(c, p_string_body(s))) == p_cons_all(pre.push(c), p_string_body(s)),
{
    match p_string_body(s) {
        Some((t, rest)) => {
            assert(pre + (seq![c] + t) =~= pre.push(c) + t);
        },
        None => {
        },
    }
}

proof fn lemma_digits_run_nonneg(s: Seq<char>)
    ensures
        0 <= digits_run(s) <= s.len(),
    decreases s.len(),
{
    if s.len() > 0 && is_digit(s[0]) {
        lemma_digits_run_nonneg(s.drop_first());
    }
}

/// The value of a hexadecimal digit, or -1.
fn hex_val_of(c: char) -> (r: i32)
    ensures
        r as int == hex_val(c),
        -1 <= r < 16,
{
    let u = c as u32;
    if 48 <= u && u <= 57 {
        (u - 48) as i32
    } else if 97 <= u && u <= 102 {
        (u - 97 + 10) as i32
    } else if 65 <= u && u <= 70 {
        (u - 65 + 10) as i32
    } else {
        proof {
            assert(!is_digit(c));
            assert(!('a' <= c && c <= 'f')) by {
                assert('a' as u32 == 97 && 'f' as u32 == 102);
            }
            assert(!('A' <= c && c <= 'F')) by {
                assert('A' as u32 == 65 && 'F' as u32 == 70);
            }
        }
        -1
    }
}

/// Reads the identifier value: digits, no leading zero, in 1..=255.
fn parse_id_value(v: &[char], i: usize) -> (r: Option<(u8, usize)>)
    requires
        i <= v@.len(),
    ensures
        r is Some <==> (p_number(v@.skip(i as int)) matches Some((val, _)) && 1 <= val <= 255),
        r matches Some((id, j)) ==> {
            &&& i <= j <= v@.len()
            &&& p_number(v@.skip(i as int)) matches Some((val, rest)) && val == id as int && 1
                <= val <= 255 && rest == v@.skip(j as int)
        },
{
    let ghost s = v@.skip(i as int);
    let total = v.len();
    let mut k: usize = 0;
    proof {
        assert(s.skip(0) =~= s);
        lemma_digits_run_nonneg(s);
    }
    while i + k < v.len() && 48 <= v[i + k] as u32 && v[i + k] as u32 <= 57
        invariant
            i + k <= v@.len(),
            total == v@.len(),
            s == v@.skip(i as int),
            k as int <= digits_run(s),
            forall|p: int| 0 <= p < k ==> is_digit(#[trigger] s[p]),
            digits_run(s.skip(k as int)) + k == digits_run(s),
        decreases v@.len() - i - k,
    {
        proof {
            assert(s.skip(k as int)[0] == v@[i + k]);
            assert(s.skip(k as int).drop_first() =~= s.skip(k + 1));
            lemma_digits_run_nonneg(s.skip(k + 1));
            assert(s[k as int] == v@[i + k]);
            assert(is_digit(s[k as int]));
        }
        k += 1;
    }
    proof {
        if i + k < v@.len() {
            assert(s.skip(k as int)[0] == v@[i + k]);
        }
        assert(digits_run(s.skip(k as int)) == 0);
        assert(digits_run(s) == k);
    }
    if k == 0 {
        return None;
    }
    proof {
        assert(s[0] == v@[i as int]);
    }
    if k > 1 && v[i] == '0' {
        return None;
    }
    if k > 3 {
        proof {
            assert(forall|p: int| 0 <= p < k ==> s.take(k as int)[p] == s[p]);
            assert(all_digits(s.take(k as int)));
            assert(s.take(k as int)[0] == s[0]);
            if k == 1 {
            } else {
                assert(s[0] != '0');
            }
            crate::numbers::lemma_digits_value_lower(s.take(k as int));
            assert(pow10(0) == 1);
            assert(pow10(1) == 10);
            assert(pow10(2) == 100);
            assert(pow10(3) == 1000);
            crate::numbers::lemma_pow10_mono(3, (k - 1) as nat);
        }
        return None;
    }
    let mut val: u32 = 0;
    let mut p: usize = 0;
    while p < k
        invariant
            p <= k <= 3,
            i + k <= v@.len(),
            total == v@.len(),
            s == v@.skip(i as int),
            forall|q: int| 0 <= q < k ==> is_digit(#[trigger] s[q]),
            val as int == digits_value(s.take(p as int)),
            val <= 999,
        decreases k - p,
    {
        proof {
            assert(s.take(p + 1).drop_last() =~= s.take(p as int));
            assert(s.take(p + 1).last() == s[p as int]);
            assert(forall|q: int| 0 <= q < p + 1 ==> s.take(p + 1)[q] == s[q]);
            assert(all_digits(s.take(p + 1)));
            crate::numbers::lemma_digits_value_upper(s.take(p + 1));
            assert(pow10(0) == 1);
            assert(pow10(1) == 10);
            assert(pow10(2) == 100);
            assert(pow10(3) == 1000);
            crate::numbers::lemma_pow10_mono(s.take(p + 1).len(), 3);
            assert(s[p as int] == v@[i + p]);
        }
        let c = v[i + p];
        val = val * 10 + (c as u32 - 48);
        p += 1;
    }
    proof {
        assert(s.take(k as int) == s.take(k as int));
    }
    if val < 1 || val > 255 {
        return None;
    }
    proof {
        assert(v@.skip(i as int).skip(k as int) =~= v@.skip(i + k));
    }
    Some((val as u8, i + k))
}

/// Reads one record starting at `i`; the task it returns satisfies the
/// per-task invariant.
#[verifier::rlimit(100)]
fn parse_record_exec(v: &[char], i: usize) -> (r: Option<(Task, usize)>)
    requires
        i <= v@.len(),
    ensures
        r is Some <==> p_record(v@.skip(i as int)) is Some,
        r matches Some((t, j)) ==> {
            &&& i <= j <= v@.len()
            &&& p_record(v@.skip(i as int)) == Some((rec_of(t), v@.skip(j as int)))
            &&& crate::task::task_wf(t)
        },
{
    proof {
        reveal_strlit("\"id\"");
        reveal_strlit("\"text\"");
        reveal_strlit("\"date\"");
        reveal_strlit("\"done\"");
        reveal_strlit("null");
        reveal_strlit("true");
        reveal_strlit("false");
    }
    let len = v.len();
    let j1 = skip_doc_ws(v, i);
    proof {
        if j1 < v@.len() {
            assert(v@.skip(j1 as int)[0] == v@[j1 as int]);
            assert(v@.skip(j1 as int).drop_first() =~= v@.skip(j1 + 1));
        }
    }
    if j1 >= len || v[j1] != '{' {
        return None;
    }
    let j2 = skip_doc_ws(v, j1 + 1);
    let j3a = match match_lit(v, j2, "\"id\"") {
        Some(j) => j,
        None => {
            return None;
        },
    };
    let j3 = skip_doc_ws(v, j3a);
    proof {
        assert(v@.skip(j2 as int).skip(4) == v@.skip(j3a as int));
        if j3 < v@.len() {
            assert(v@.skip(j3 as int)[0] == v@[j3 as int]);
            assert(v@.skip(j3 as int).drop_first() =~= v@.skip(j3 + 1));
        }
    }
    if j3 >= len || v[j3] != ':' {
        return None;
    }
    let j4 = skip_doc_ws(v, j3 + 1);
    let (id, j5) = match parse_id_value(v, j4) {
        Some(p) => p,
        None => {
            return None;
        },
    };
    // text field
    let j6 = skip_doc_ws(v, j5);
    proof {
        if j6 < v@.len() {
            assert(v@.skip(j6 as int)[0] == v@[j6 as int]);
            assert(v@.skip(j6 as int).drop_first() =~= v@.skip(j6 + 1));
        }
    }
    if j6 >= len || v[j6] != ',' {
        return None;
    }
    let j7 = skip_doc_ws(v, j6 + 1);
    let j8a = match match_lit(v, j7, "\"text\"") {
        Some(j) => j,
        None => {
            return None;
        },
    };
    let j8 = skip_doc_ws(v, j8a);
    proof {
        assert(v@.skip(j7 as int).skip(6) == v@.skip(j8a as int));
        if j8 < v@.len() {
            assert(v@.skip(j8 as int)[0] == v@[j8 as int]);
            assert(v@.skip(j8 as int).drop_first() =~= v@.skip(j8 + 1));
        }
    }
    if j8 >= len || v[j8] != ':' {
        return None;
    }
    let j9 = skip_doc_ws(v, j8 + 1);
    proof {
        if j9 < v@.len() {
            assert(v@.skip(j9 as int)[0] == v@[j9 as int]);
            assert(v@.skip(j9 as int).drop_first() =~= v@.skip(j9 + 1));
        }
    }
    if j9 >= len || v[j9] != '"' {
        return None;
    }
    let (text, j10) = match parse_string_body(v, j9 + 1) {
        Some(p) => p,
        None => {
            return None;
        },
    };
    if is_blank(text.as_slice()) {
        return None;
    }
    // date field
    let j11 = skip_doc_ws(v, j10);
    proof {
        if j11 < v@.len() {
            assert(v@.skip(j11 as int)[0] == v@[j11 as int]);
            assert(v@.skip(j11 as int).drop_first() =~= v@.skip(j11 + 1));
        }
    }
    if j11 >= len || v[j11] != ',' {
        return None;
    }
    let j12 = skip_doc_ws(v, j11 + 1);
    let j13a = match match_lit(v, j12, "\"date\"") {
        Some(j) => j,
        None => {
            return None;
        },
    };
    let j13 = skip_doc_ws(v, j13a);
    proof {
        assert(v@.skip(j12 as int).skip(6) == v@.skip(j13a as int));
        if j13 < v@.len() {
            assert(v@.skip(j13 as int)[0] == v@[j13 as int]);
            assert(v@.skip(j13 as int).drop_first() =~= v@.skip(j13 + 1));
        }
    }
    if j13 >= len || v[j13] != ':' {
        return None;
    }
    let j14 = skip_doc_ws(v, j13 + 1);
    let ghost s14 = v@.skip(j14 as int);
    let (date, j15): (Option<Date>, usize) = match match_lit(v, j14, "null") {
        Some(j) => {
            proof {
                assert(v@.skip(j14 as int).skip(4) == v@.skip(j as int));
            }
            (None, j)
        },
        None => {
            proof {
                if j14 < v@.len() {
                    assert(s14[0] == v@[j14 as int]);
                    assert(s14.drop_first() =~= v@.skip(j14 + 1));
                }
            }
            if j14 >= len || v[j14] != '"' {
                return None;
            }
            match parse_string_body(v, j14 + 1) {
                Some((ds, jd)) => {
                    match parse_iso_chars(ds.as_slice()) {
                        Some(d) => (Some(d), jd),
                        None => {
                            return None;
                        },
                    }
                },
                None => {
                    return None;
                },
            }
        },
    };
    // done field
    let j16 = skip_doc_ws(v, j15);
    proof {
        if j16 < v@.len() {
            assert(v@.skip(j16 as int)[0] == v@[j16 as int]);
            assert(v@.skip(j16 as int).drop_first() =~= v@.skip(j16 + 1));
        }
    }
    if j16 >= len || v[j16] != ',' {
        return None;
    }
    let j17 = skip_doc_ws(v, j16 + 1);
    let j18a = match match_lit(v, j17, "\"done\"") {
        Some(j) => j,
        None => {
            return None;
        },
    };
    let j18 = skip_doc_ws(v, j18a);
    proof {
        assert(v@.skip(j17 as int).skip(6) == v@.skip(j18a as int));
        if j18 < v@.len() {
            assert(v@.skip(j18 as int)[0] == v@[j18 as int]);
            assert(v@.skip(j18 as int).drop_first() =~= v@.skip(j18 + 1));
        }
    }
    if j18 >= len || v[j18] != ':' {
        return None;
    }
    let j19 = skip_doc_ws(v, j18 + 1);
    let (done, j20): (bool, usize) = match match_lit(v, j19, "true") {
        Some(j) => {
            proof {
                assert(v@.skip(j19 as int).skip(4) == v@.skip(j as int));
            }
            (true, j)
        },
        None => {
            match match_lit(v, j19, "false") {
                Some(j) => {
                    proof {
                        assert(v@.skip(j19 as int).skip(5) == v@.skip(j as int));
                    }
                    (false, j)
                },
                None => {
                    return None;
                },
            }
        },
    };
    let j21 = skip_doc_ws(v, j20);
    proof {
        if j21 < v@.len() {
            assert(v@.skip(j21 as int)[0] == v@[j21 as int]);
            assert(v@.skip(j21 as int).drop_first() =~= v@.skip(j21 + 1));
        }
    }
    if j21 >= len || v[j21] != '}' {
        return None;
    }
    let task = Task { id, text: chars_str(text.as_slice()), date, done };
    Some((task, j21 + 1))
}

/// Whether all task identifiers are pairwise distinct.
fn ids_all_distinct(tasks: &Vec<Task>) -> (r: bool)
    ensures
        r == (forall|x: int, y: int|
            0 <= x < y < tasks@.len() ==> (#[trigger] tasks@[x]).id != (#[trigger] tasks@[y]).id),
{
    let mut a: usize = 0;
    while a < tasks.len()
        invariant
            a <= tasks@.len(),
            forall|x: int, y: int|
                0 <= x < y < tasks@.len() && x < a ==> (#[trigger] tasks@[x]).id != (
                #[trigger] tasks@[y]).id,
        decreases tasks@.len() - a,
    {
        let mut b: usize = a + 1;
        while b < tasks.len()
            invariant
                a < b <= tasks@.len() || (b <= tasks@.len() && a + 1 == b),
                a < tasks@.len(),
                forall|y: int| a < y < b ==> tasks@[a as int].id != (#[trigger] tasks@[y]).id,
            decreases tasks@.len() - b,
        {
            if tasks[a].id == tasks[b].id {
                return false;
            }
            b += 1;
        }
        a += 1;
    }
    true
}

/// Parses the whole document. The error carries a position near where
/// reading stopped; its exact value is presentation only.
#[verifier::rlimit(100)]
pub fn parse_document(s: &str) -> (r: Result<Vec<Task>, ParseError>)
    ensures
        r is Ok <==> doc_parse_spec(s@) is Some,
        r matches Ok(ts) ==> {
            &&& doc_parse_spec(s@) == Some(ts@.map_values(|t: Task| rec_of(t)))
            &&& tasks_wf(ts@)
        },
{
    let v = str_chars(s);
    let n = v.len();
    let i0 = skip_doc_ws(v.as_slice(), 0);
    proof {
        assert(v@.skip(0) =~= v@);
        if i0 < v@.len() {
            assert(v@.skip(i0 as int)[0] == v@[i0 as int]);
            assert(v@.skip(i0 as int).drop_first() =~= v@.skip(i0 + 1));
        }
    }
    if i0 >= n || v[i0] != '[' {
        return Err(ParseError { at: i0 });
    }
    let i1 = skip_doc_ws(v.as_slice(), i0 + 1);
    proof {
        if i1 < v@.len() {
            assert(v@.skip(i1 as int)[0] == v@[i1 as int]);
            assert(v@.skip(i1 as int).drop_first() =~= v@.skip(i1 + 1));
        }
    }
    if i1 < n && v[i1] == ']' {
        let i2 = skip_doc_ws(v.as_slice(), i1 + 1);
        if i2 == n {
            proof {
                assert(v@.skip(i2 as int).len() == 0);
                assert(Seq::<Task>::empty().map_values(|t: Task| rec_of(t))
                    =~= Seq::<TaskRec>::empty());
            }
            return Ok(Vec::new());
        }
        proof {
            assert(v@.skip(i2 as int).len() > 0);
        }
        return Err(ParseError { at: i2 });
    }
    let (t0, j0) = match parse_record_exec(v.as_slice(), i0 + 1) {
        Some(p) => p,
        None => {
            return Err(ParseError { at: i0 + 1 });
        },
    };
    let ghost rest0 = v@.skip(j0 as int);
    let mut tasks: Vec<Task> = Vec::new();
    tasks.push(t0);
    let mut i = j0;
    let ghost rec0 = rec_of(t0);
    proof {
        assert(tasks@.map_values(|t: Task| rec_of(t)) =~= seq![rec0]);
    }
    let ghost whole = (match p_more_records(rest0, rec0) {
        Some((ts, tail)) => if p_ws(tail).len() == 0 && recs_distinct(ts) {
            Some(ts)
        } else {
            None
        },
        None => None,
    });
    proof {
        assert(doc_parse_spec(s@) == whole);
    }
    loop
        invariant
            j0 <= i <= v@.len(),
            tasks@.len() >= 1,
            forall|p: int| 0 <= p < tasks@.len() ==> crate::task::task_wf(#[trigger] tasks@[p]),
            p_more_records(rest0, rec0) == prepend_recs(
                tasks@.drop_last().map_values(|t: Task| rec_of(t)),
                p_more_records(v@.skip(i as int), rec_of(tasks@.last())),
            ),
            rest0 == v@.skip(j0 as int),
            whole == (match p_more_records(rest0, rec0) {
                Some((ts, tail)) => if p_ws(tail).len() == 0 && recs_distinct(ts) {
                    Some(ts)
                } else {
                    None
                },
                None => None,
            }),
            doc_parse_spec(s@) == whole,
        decreases v@.len() - i,
    {
        let j = skip_doc_ws(v.as_slice(), i);
        proof {
            if j < v@.len() {
                assert(v@.skip(j as int)[0] == v@[j as int]);
                assert(v@.skip(j as int).drop_first() =~= v@.skip(j + 1));
            }
        }
        if j < v.len() && v[j] == ']' {
            proof {
                assert(p_more_records(v@.skip(i as int), rec_of(tasks@.last())) == Some(
                    (seq![rec_of(tasks@.last())], v@.skip(j + 1)),
                ));
                assert(tasks@.drop_last().map_values(|t: Task| rec_of(t)) + seq![
                    rec_of(tasks@.last()),
                ] =~= tasks@.map_values(|t: Task| rec_of(t)));
            }
            let e = skip_doc_ws(v.as_slice(), j + 1);
            if e != v.len() {
                proof {
                    assert(v@.skip(e as int).len() > 0);
                }
                return Err(ParseError { at: e });
            }
            proof {
                assert(v@.skip(e as int).len() == 0);
            }
            let distinct = ids_all_distinct(&tasks);
            proof {
                let recs = tasks@.map_values(|t: Task| rec_of(t));
                assert(forall|x: int|
                    0 <= x < tasks@.len() ==> (#[trigger] recs[x]).id == tasks@[x].id);
                if distinct {
                    assert(recs_distinct(recs));
                } else {
                    let (x, y) = choose|x: int, y: int|
                        0 <= x < y < tasks@.len() && (#[trigger] tasks@[x]).id == (
                        #[trigger] tasks@[y]).id;
                    assert(recs[x].id == recs[y].id);
                    assert(!recs_distinct(recs));
                }
            }
            if !distinct {
                return Err(ParseError { at: 0 });
            }
            proof {
                assert(tasks_wf(tasks@));
            }
            return Ok(tasks);
        }
        if j < v.len() && v[j] == ',' {
            match parse_record_exec(v.as_slice(), j + 1) {
                Some((t, j2)) => {
                    proof {
                        assert(v@.skip(j2 as int).len() < v@.skip(i as int).len());
                        let lastrec = rec_of(tasks@.last());
                        assert(p_more_records(v@.skip(i as int), lastrec) == (match
                            p_more_records(v@.skip(j2 as int), rec_of(t)) {
                            Some((ts2, tail)) => Some((seq![lastrec] + ts2, tail)),
                            None => None,
                        }));
                    }
                    let ghost before = tasks@;
                    tasks.push(t);
                    proof {
                        assert(tasks@.drop_last() =~= before);
                        assert(tasks@.last() == t);
                        lemma_prepend_shift(
                            before.map_values(|x: Task| rec_of(x)),
                            rec_of(t),
                            v@.skip(j2 as int),
                        );
                        assert(before.drop_last().map_values(|x: Task| rec_of(x)).push(
                            rec_of(before.last()),
                        ) =~= before.map_values(|x: Task| rec_of(x)));
                        assert(tasks@.drop_last().map_values(|x: Task| rec_of(x))
                            =~= before.map_values(|x: Task| rec_of(x)));
                    }
                    i = j2;
                },
                None => {
                    return Err(ParseError { at: j + 1 });
                },
            }
        } else {
            return Err(ParseError { at: j });
        }
    }
}

/// Shifting the pending record into the prefix.
proof fn lemma_prepend_shift(pre: Seq<TaskRec>, rec: TaskRec, s: Seq<char>)
    ensures
        forall|last: TaskRec|
            prepend_recs(
                pre.drop_last(),
                #[trigger] prepend_one(last, p_more_records(s, rec)),
            ) == prepend_recs(pre.drop_last().push(last), p_more_records(s, rec)),
{
    assert forall|last: TaskRec|
        prepend_recs(pre.drop_last(), #[trigger] prepend_one(last, p_more_records(s, rec)))
            == prepend_recs(pre.drop_last().push(last), p_more_records(s, rec)) by {
        match p_more_records(s, rec) {
            Some((ts, tail)) => {
                assert(pre.drop_last() + (seq![last] + ts) =~= pre.drop_last().push(last) + ts);
            },
            None => {},
        }
    }
}

/// One record prepended to a parse of the remainder.
pub open spec fn prepend_one(rec: TaskRec, o: Option<(Seq<TaskRec>, Seq<char>)>) -> Option<
    (Seq<TaskRec>, Seq<char>),
> {
    match o {
        Some((ts, tail)) => Some((seq![rec] + ts, tail)),
        None => None,
    }
}

/// Leading whitespace is skipped, and skipping stops at a non-blank.
proof fn lemma_pws_chain(w: Seq<char>, rest: Seq<char>)
    requires
        forall|i: int| 0 <= i < w.len() ==> doc_ws(#[trigger] w[i]),
    ensures
        p_ws(w + rest) == p_ws(rest),
    decreases w.len(),
{
    if w.len() == 0 {
        assert(w + rest =~= rest);
    } else {
        assert((w + rest)[0] == w[0]);
        assert((w + rest).drop_first() =~= w.drop_first() + rest);
        assert(forall|i: int| 0 <= i < w.len() - 1 ==> w.drop_first()[i] == #[trigger] w[i + 1]);
        lemma_pws_chain(w.drop_first(), rest);
    }
}

proof fn lemma_pws_stop(s: Seq<char>)
    requires
        s.len() > 0,
        !doc_ws(s[0]),
    ensures
        p_ws(s) == s,
{
}

/// A literal at the head is matched and consumed.
proof fn lemma_starts(lit: Seq<char>, rest: Seq<char>)
    ensures
        starts_with(lit + rest, lit),
        (lit + rest).skip(lit.len() as int) == rest,
{
    assert((lit + rest).take(lit.len() as int) =~= lit);
    assert((lit + rest).skip(lit.len() as int) =~= rest);
}

/// Characters that escape to themselves.
pub open spec fn plain_char(c: char) -> bool {
    c != '"' && c != '\\' && c as u32 >= 0x20
}

proof fn lemma_escape_id(s: Seq<char>)
    requires
        forall|i: int| 0 <= i < s.len() ==> plain_char(#[trigger] s[i]),
    ensures
        escape_spec(s) == s,
    decreases s.len(),
{
    if s.len() > 0 {
        assert(escape_char(s[0]) == seq![s[0]]);
        assert(forall|i: int|
            0 <= i < s.len() - 1 ==> s.drop_first()[i] == #[trigger] s[i + 1]);
        lemma_escape_id(s.drop_first());
        assert(seq![s[0]] + s.drop_first() =~= s);
    }
}

/// Reading back an escaped text stops at the closing quote and restores
/// the text.
proof fn lemma_string_roundtrip(text: Seq<char>, rest: Seq<char>)
    ensures
        p_string_body(escape_spec(text) + seq!['"'] + rest) == Some((text, rest)),
    decreases text.len(),
{
    let s = escape_spec(text) + seq!['"'] + rest;
    if text.len() == 0 {
        assert(escape_spec(text) == Seq::<char>::empty());
        assert(s =~= seq!['"'] + rest);
        assert(s[0] == '"');
        assert(s.drop_first() =~= rest);
    } else {
        let c = text[0];
        let e = escape_char(c);
        lemma_string_roundtrip(text.drop_first(), rest);
        let srest = escape_spec(text.drop_first()) + seq!['"'] + rest;
        assert(s =~= e + srest) by {
            assert(escape_spec(text) == e + escape_spec(text.drop_first()));
            assert((e + escape_spec(text.drop_first())) + seq!['"'] + rest =~= e + (escape_spec(
                text.drop_first(),
            ) + seq!['"'] + rest));
        }
        assert(seq![c] + text.drop_first() =~= text);
        if c == '"' || c == '\\' || c == '\u{8}' || c == '\t' || c == '\n' || c == '\u{c}' || c
            == '\r' {
            assert(e.len() == 2 && e[0] == '\\');
            assert(s[0] == '\\');
            assert(s[1] == e[1]);
            assert(e[1] != 'u');
            assert(unescape_simple(e[1]) == Some(c));
            assert(s.skip(2) =~= srest);
            assert(p_string_body(s) == p_cons(c, p_string_body(srest)));
        } else if (c as u32) < 0x20 {
            let v = c as u32 as int;
            assert(e == seq!['\\', 'u', '0', '0', hex_digit(v / 16), hex_digit(v % 16)]);
            assert(s[0] == '\\' && s[1] == 'u' && s[2] == '0' && s[3] == '0');
            assert(s[4] == hex_digit(v / 16));
            assert(s[5] == hex_digit(v % 16));
            assert(hex_val(hex_digit(v / 16)) == v / 16) by {
                assert(0 <= v / 16 < 16);
            }
            assert(hex_val(hex_digit(v % 16)) == v % 16) by {
                assert(0 <= v % 16 < 16);
            }
            assert(hex_val(s[4]) * 16 + hex_val(s[5]) == v) by {
                vstd::arithmetic::div_mod::lemma_fundamental_div_mod(v, 16);
            }
            assert(v < 0x20);
            assert(((v as u8) as char) == c) by {
                assert((v as u8) as u32 == c as u32);
                vstd::utf8::char_u32_cast(c, (v as u8) as u32);
            }
            assert(s.skip(6) =~= srest);
            assert(p_string_body(s) == p_cons(c, p_string_body(srest)));
        } else {
            assert(e == seq![c]);
            assert(s[0] == c);
            assert(s.drop_first() =~= srest);
            assert(p_string_body(s) == p_cons(c, p_string_body(srest)));
        }
    }
}

/// A digit run at the head of the input is read back as its value.
proof fn lemma_number_roundtrip(n: int, rest: Seq<char>)
    requires
        0 <= n,
        rest.len() > 0,
        !is_digit(rest[0]),
    ensures
        p_number(dec_spec(n) + rest) == Some((n, rest)),
{
    let d = dec_spec(n);
    lemma_dec_spec_digits(n);
    let s = d + rest;
    assert(digits_run(s) == d.len()) by {
        lemma_digits_run_concat(d, rest);
    }
    assert(s.take(d.len() as int) =~= d);
    assert(s.skip(d.len() as int) =~= rest);
    if d.len() > 1 {
        lemma_dec_first_digit(n);
        assert(s[0] == d[0]);
    }
}

proof fn lemma_digits_run_concat(d: Seq<char>, rest: Seq<char>)
    requires
        all_digits(d),
        rest.len() > 0,
        !is_digit(rest[0]),
    ensures
        digits_run(d + rest) == d.len(),
    decreases d.len(),
{
    if d.len() == 0 {
        assert(d + rest =~= rest);
    } else {
        assert((d + rest)[0] == d[0]);
        assert((d + rest).drop_first() =~= d.drop_first() + rest);
        assert(forall|i: int| 0 <= i < d.len() - 1 ==> d.drop_first()[i] == #[trigger] d[i + 1]);
        lemma_digits_run_concat(d.drop_first(), rest);
    }
}

/// A value of ten or more prints with a non-zero leading digit.
proof fn lemma_dec_first_digit(n: int)
    requires
        n >= 0,
        dec_spec(n).len() > 1,
    ensures
        dec_spec(n)[0] != '0',
    decreases n,
{
    if n < 10 {
    } else {
        let head = dec_spec(n / 10);
        lemma_dec_spec_digits(n / 10);
        assert(dec_spec(n) == head.push(crate::numbers::digit_char(n % 10)));
        assert(dec_spec(n)[0] == head[0]);
        if n / 10 < 10 {
            assert(n / 10 >= 1);
            assert(head == seq![crate::numbers::digit_char(n / 10)]);
        } else {
            lemma_dec_spec_digits(n / 100);
            assert(dec_spec(n / 10) == dec_spec(n / 10 / 10).push(
                crate::numbers::digit_char(n / 10 % 10),
            ));
            assert(head.len() > 1);
            lemma_dec_first_digit(n / 10);
        }
    }
}

/// One rendered record, possibly under leading whitespace, is read back
/// as its record.
#[verifier::rlimit(100)]
proof fn lemma_record_roundtrip(w: Seq<char>, t: Task, rest: Seq<char>)
    requires
        crate::task::task_wf(t),
        forall|i: int| 0 <= i < w.len() ==> doc_ws(#[trigger] w[i]),
    ensures
        p_record(w + record_spec(t) + rest) == Some((rec_of(t), rest)),
{
    reveal_strlit("\"id\": ");
    reveal_strlit("\"text\": \"");
    reveal_strlit("\"date\": ");
    reveal_strlit("\"done\": ");
    reveal_strlit("\"id\"");
    reveal_strlit("\"text\"");
    reveal_strlit("\"date\"");
    reveal_strlit("\"done\"");
    reveal_strlit("null");
    reveal_strlit("true");
    reveal_strlit("false");
    let s = w + record_spec(t) + rest;
    let idtxt = dec_spec(t.id as int);
    let datetxt: Seq<char> = match t.date {
        Some(d) => seq!['"'] + date_iso_spec(d) + seq!['"'],
        None => "null"@,
    };
    let donetxt: Seq<char> = if t.done {
        "true"@
    } else {
        "false"@
    };
    // the rendered record, cut at the parser's own stations
    let after_open = seq!['\n', ' ', ' ', ' ', ' '] + "\"id\""@ + (seq![':', ' '] + idtxt + seq![
        ',',
        '\n',
        ' ',
        ' ',
        ' ',
        ' ',
    ] + "\"text\""@ + (seq![':', ' ', '"'] + escape_spec(t.text@) + seq!['"'] + (seq![
        ',',
        '\n',
        ' ',
        ' ',
        ' ',
        ' ',
    ] + "\"date\""@ + (seq![':', ' '] + datetxt + (seq![',', '\n', ' ', ' ', ' ', ' ']
        + "\"done\""@ + (seq![':', ' '] + donetxt + (seq!['\n', ' ', ' ', '}'] + rest)))))));
    assert(s =~= w + (seq!['{'] + after_open));
    lemma_pws_chain(w, seq!['{'] + after_open);
    lemma_pws_stop(seq!['{'] + after_open);
    let s1 = p_ws(s);
    assert(s1 == seq!['{'] + after_open);
    assert(s1[0] == '{');
    assert(s1.drop_first() =~= after_open);
    // "id"
    let ws1 = seq!['\n', ' ', ' ', ' ', ' '];
    let after_idkey = seq![':', ' '] + idtxt + seq![',', '\n', ' ', ' ', ' ', ' '] + "\"text\""@
        + (seq![':', ' ', '"'] + escape_spec(t.text@) + seq!['"'] + (seq![
        ',',
        '\n',
        ' ',
        ' ',
        ' ',
        ' ',
    ] + "\"date\""@ + (seq![':', ' '] + datetxt + (seq![',', '\n', ' ', ' ', ' ', ' ']
        + "\"done\""@ + (seq![':', ' '] + donetxt + (seq!['\n', ' ', ' ', '}'] + rest))))));
    assert(after_open =~= ws1 + ("\"id\""@ + after_idkey));
    lemma_pws_chain(ws1, "\"id\""@ + after_idkey);
    lemma_pws_stop("\"id\""@ + after_idkey);
    let s2 = p_ws(after_open);
    assert(s2 == "\"id\""@ + after_idkey);
    lemma_starts("\"id\""@, after_idkey);
    assert(starts_with(s2, "\"id\""@));
    assert(s2.skip(4) == after_idkey);
    assert(after_idkey[0] == ':');
    lemma_pws_stop(after_idkey);
    let s3 = p_ws(s2.skip(4));
    assert(s3 == after_idkey);
    let after_colon1 = idtxt + (seq![',', '\n', ' ', ' ', ' ', ' '] + "\"text\""@ + (seq![
        ':',
        ' ',
        '"',
    ] + escape_spec(t.text@) + seq!['"'] + (seq![',', '\n', ' ', ' ', ' ', ' '] + "\"date\""@
        + (seq![':', ' '] + datetxt + (seq![',', '\n', ' ', ' ', ' ', ' '] + "\"done\""@ + (seq![
        ':',
        ' ',
    ] + donetxt + (seq!['\n', ' ', ' ', '}'] + rest)))))));
    assert(s3.drop_first() =~= seq![' '] + after_colon1);
    lemma_pws_chain(seq![' '], after_colon1);
    let s4 = p_ws(s3.drop_first());
    let num_rest = seq![',', '\n', ' ', ' ', ' ', ' '] + "\"text\""@ + (seq![':', ' ', '"']
        + escape_spec(t.text@) + seq!['"'] + (seq![',', '\n', ' ', ' ', ' ', ' '] + "\"date\""@
        + (seq![':', ' '] + datetxt + (seq![',', '\n', ' ', ' ', ' ', ' '] + "\"done\""@ + (seq![
        ':',
        ' ',
    ] + donetxt + (seq!['\n', ' ', ' ', '}'] + rest))))));
    assert(after_colon1 =~= idtxt + num_rest);
    assert(num_rest[0] == ',');
    assert(!is_digit(','));
    lemma_dec_spec_digits(t.id as int);
    assert(after_colon1[0] == idtxt[0]);
    assert(is_digit(idtxt[0]));
    assert(!doc_ws(after_colon1[0]));
    lemma_pws_stop(after_colon1);
    assert(s4 == after_colon1);
    lemma_number_roundtrip(t.id as int, num_rest);
    assert(p_number(s4) == Some((t.id as int, num_rest)));
    assert(1 <= t.id as int <= 255);
    // text field
    lemma_field_text(num_rest, t, datetxt, donetxt, rest);
    assert(p_record_text(num_rest, t.id) == Some((rec_of(t), rest)));
}

/// The text, date and done fields of a rendered record.
#[verifier::rlimit(100)]
proof fn lemma_field_text(s: Seq<char>, t: Task, datetxt: Seq<char>, donetxt: Seq<char>, rest: Seq<
    char,
>)
    requires
        crate::task::task_wf(t),
        datetxt == (match t.date {
            Some(d) => seq!['"'] + date_iso_spec(d) + seq!['"'],
            None => "null"@,
        }),
        donetxt == (if t.done {
            "true"@
        } else {
            "false"@
        }),
        s == seq![',', '\n', ' ', ' ', ' ', ' '] + "\"text\""@ + (seq![':', ' ', '"']
            + escape_spec(t.text@) + seq!['"'] + (seq![',', '\n', ' ', ' ', ' ', ' ']
            + "\"date\""@ + (seq![':', ' '] + datetxt + (seq![',', '\n', ' ', ' ', ' ', ' ']
            + "\"done\""@ + (seq![':', ' '] + donetxt + (seq!['\n', ' ', ' ', '}'] + rest)))))),
    ensures
        p_record_text(s, t.id) == Some((rec_of(t), rest)),
{
    reveal_strlit("\"text\"");
    reveal_strlit("\"date\"");
    reveal_strlit("\"done\"");
    reveal_strlit("null");
    reveal_strlit("true");
    reveal_strlit("false");
    assert(s[0] == ',');
    lemma_pws_stop(s);
    let after_date = seq![',', '\n', ' ', ' ', ' ', ' '] + "\"done\""@ + (seq![':', ' '] + donetxt
        + (seq!['\n', ' ', ' ', '}'] + rest));
    let after_text = seq![',', '\n', ' ', ' ', ' ', ' '] + "\"date\""@ + (seq![':', ' '] + datetxt
        + after_date);
    let keyrest1 = seq![':', ' ', '"'] + escape_spec(t.text@) + seq!['"'] + after_text;
    assert(s.drop_first() =~= seq!['\n', ' ', ' ', ' ', ' '] + ("\"text\""@ + keyrest1));
    lemma_pws_chain(seq!['\n', ' ', ' ', ' ', ' '], "\"text\""@ + keyrest1);
    lemma_pws_stop("\"text\""@ + keyrest1);
    let s7 = p_ws(s.drop_first());
    assert(s7 == "\"text\""@ + keyrest1);
    lemma_starts("\"text\""@, keyrest1);
    assert(s7.skip(6) == keyrest1);
    assert(keyrest1[0] == ':');
    lemma_pws_stop(keyrest1);
    let s8 = p_ws(s7.skip(6));
    assert(s8 == keyrest1);
    assert(s8.drop_first() =~= seq![' '] + (seq!['"'] + (escape_spec(t.text@) + seq!['"']
        + after_text)));
    lemma_pws_chain(seq![' '], seq!['"'] + (escape_spec(t.text@) + seq!['"'] + after_text));
    lemma_pws_stop(seq!['"'] + (escape_spec(t.text@) + seq!['"'] + after_text));
    let s9 = p_ws(s8.drop_first());
    assert(s9 == seq!['"'] + (escape_spec(t.text@) + seq!['"'] + after_text));
    assert(s9[0] == '"');
    assert(s9.drop_first() =~= escape_spec(t.text@) + seq!['"'] + after_text);
    lemma_string_roundtrip(t.text@, after_text);
    assert(p_string_body(s9.drop_first()) == Some((t.text@, after_text)));
    assert(!all_whitespace(t.text@));
    lemma_field_date(after_text, t, datetxt, donetxt, rest, after_date);
    assert(p_record_date(after_text, t.id, t.text@) == Some((rec_of(t), rest)));
}

/// The date and done fields of a rendered record.
#[verifier::rlimit(100)]
proof fn lemma_field_date(
    s: Seq<char>,
    t: Task,
    datetxt: Seq<char>,
    donetxt: Seq<char>,
    rest: Seq<char>,
    after_date: Seq<char>,
)
    requires
        crate::task::task_wf(t),
        datetxt == (match t.date {
            Some(d) => seq!['"'] + date_iso_spec(d) + seq!['"'],
            None => "null"@,
        }),
        donetxt == (if t.done {
            "true"@
        } else {
            "false"@
        }),
        after_date == seq![',', '\n', ' ', ' ', ' ', ' '] + "\"done\""@ + (seq![':', ' ']
            + donetxt + (seq!['\n', ' ', ' ', '}'] + rest)),
        s == seq![',', '\n', ' ', ' ', ' ', ' '] + "\"date\""@ + (seq![':', ' '] + datetxt
            + after_date),
    ensures
        p_record_date(s, t.id, t.text@) == Some((rec_of(t), rest)),
{
    reveal_strlit("\"date\"");
    reveal_strlit("\"done\"");
    reveal_strlit("null");
    reveal_strlit("true");
    reveal_strlit("false");
    assert(s[0] == ',');
    lemma_pws_stop(s);
    let keyrest = seq![':', ' '] + datetxt + after_date;
    assert(s.drop_first() =~= seq!['\n', ' ', ' ', ' ', ' '] + ("\"date\""@ + keyrest));
    lemma_pws_chain(seq!['\n', ' ', ' ', ' ', ' '], "\"date\""@ + keyrest);
    lemma_pws_stop("\"date\""@ + keyrest);
    let s12 = p_ws(s.drop_first());
    assert(s12 == "\"date\""@ + keyrest);
    lemma_starts("\"date\""@, keyrest);
    assert(s12.skip(6) == keyrest);
    assert(keyrest[0] == ':');
    lemma_pws_stop(keyrest);
    let s13 = p_ws(s12.skip(6));
    assert(s13 == keyrest);
    assert(s13.drop_first() =~= seq![' '] + (datetxt + after_date));
    lemma_pws_chain(seq![' '], datetxt + after_date);
    let s14 = p_ws(s13.drop_first());
    match t.date {
        None => {
            assert(datetxt + after_date =~= "null"@ + after_date);
            assert((datetxt + after_date)[0] == 'n');
            lemma_pws_stop(datetxt + after_date);
            assert(s14 == datetxt + after_date);
            lemma_starts("null"@, after_date);
            assert(starts_with(s14, "null"@));
            assert(s14.skip(4) == after_date);
            assert(p_date_value(s14) == Some((None::<Date>, after_date)));
        },
        Some(d) => {
            assert((datetxt + after_date)[0] == '"');
            lemma_pws_stop(datetxt + after_date);
            assert(s14 == datetxt + after_date);
            assert(!starts_with(s14, "null"@)) by {
                assert(s14[0] == '"');
                if starts_with(s14, "null"@) {
                    assert(s14.take(4)[0] == s14[0]);
                    assert("null"@[0] == 'n');
                }
            }
            let iso = date_iso_spec(d);
            assert(s14.drop_first() =~= iso + seq!['"'] + after_date) by {
                assert(datetxt + after_date =~= seq!['"'] + (iso + seq!['"'] + after_date));
            }
            assert(escape_spec(iso) == iso) by {
                crate::numbers::lemma_dec_pad_value(d.year as int, 4);
                crate::numbers::lemma_dec_pad_value(d.month as int, 2);
                crate::numbers::lemma_dec_pad_value(d.day as int, 2);
                assert(forall|i: int| 0 <= i < iso.len() ==> plain_char(#[trigger] iso[i]))
                    by {
                    assert forall|i: int| 0 <= i < iso.len() implies plain_char(
                        #[trigger] iso[i],
                    ) by {
                        lemma_iso_chars(d, i);
                    }
                }
                lemma_escape_id(iso);
            }
            lemma_string_roundtrip(iso, after_date);
            assert(p_string_body(s14.drop_first()) == Some((iso, after_date)));
            crate::dates::lemma_iso_roundtrip(d);
            assert(parse_iso_spec(iso) == Some(d));
            assert(p_date_value(s14) == Some((Some(d), after_date)));
        },
    }
    lemma_field_done(after_date, t, donetxt, rest);
    assert(p_record_done(after_date, t.id, t.text@, t.date) == Some((rec_of(t), rest)));
}

/// Every character of a rendered date is a plain digit or dash.
proof fn lemma_iso_chars(d: Date, i: int)
    requires
        0 <= i < date_iso_spec(d).len(),
    ensures
        plain_char(date_iso_spec(d)[i]),
{
    crate::numbers::lemma_dec_pad_value(d.year as int, 4);
    crate::numbers::lemma_dec_pad_value(d.month as int, 2);
    crate::numbers::lemma_dec_pad_value(d.day as int, 2);
    let y = crate::numbers::dec_pad_spec(d.year as int, 4);
    let m = crate::numbers::dec_pad_spec(d.month as int, 2);
    let dd = crate::numbers::dec_pad_spec(d.day as int, 2);
    let iso = date_iso_spec(d);
    assert(iso =~= y + seq!['-'] + m + seq!['-'] + dd);
    if i < y.len() {
        assert(iso[i] == y[i]);
        assert(is_digit(y[i]));
    } else if i == y.len() {
        assert(iso[i] == '-');
    } else if i < y.len() + 1 + m.len() {
        assert(iso[i] == m[i - y.len() - 1]);
        assert(is_digit(m[i - y.len() - 1]));
    } else if i == y.len() + 1 + m.len() {
        assert(iso[i] == '-');
    } else {
        assert(iso[i] == dd[i - y.len() - m.len() - 2]);
        assert(is_digit(dd[i - y.len() - m.len() - 2]));
    }
}

/// The done field and the closing brace.
#[verifier::rlimit(100)]
proof fn lemma_field_done(s: Seq<char>, t: Task, donetxt: Seq<char>, rest: Seq<char>)
    requires
        donetxt == (if t.done {
            "true"@
        } else {
            "false"@
        }),
        s == seq![',', '\n', ' ', ' ', ' ', ' '] + "\"done\""@ + (seq![':', ' '] + donetxt
            + (seq!['\n', ' ', ' ', '}'] + rest)),
    ensures
        p_record_done(s, t.id, t.text@, t.date) == Some((rec_of(t), rest)),
{
    reveal_strlit("\"done\"");
    reveal_strlit("true");
    reveal_strlit("false");
    assert(s[0] == ',');
    lemma_pws_stop(s);
    let tail = seq!['\n', ' ', ' ', '}'] + rest;
    let keyrest = seq![':', ' '] + donetxt + tail;
    assert(s.drop_first() =~= seq!['\n', ' ', ' ', ' ', ' '] + ("\"done\""@ + keyrest));
    lemma_pws_chain(seq!['\n', ' ', ' ', ' ', ' '], "\"done\""@ + keyrest);
    lemma_pws_stop("\"done\""@ + keyrest);
    let s17 = p_ws(s.drop_first());
    assert(s17 == "\"done\""@ + keyrest);
    lemma_starts("\"done\""@, keyrest);
    assert(s17.skip(6) == keyrest);
    assert(keyrest[0] == ':');
    lemma_pws_stop(keyrest);
    let s18 = p_ws(s17.skip(6));
    assert(s18 == keyrest);
    assert(s18.drop_first() =~= seq![' '] + (donetxt + tail));
    lemma_pws_chain(seq![' '], donetxt + tail);
    assert((donetxt + tail)[0] == donetxt[0]);
    lemma_pws_stop(donetxt + tail);
    let s19 = p_ws(s18.drop_first());
    assert(s19 == donetxt + tail);
    if t.done {
        lemma_starts("true"@, tail);
        assert(starts_with(s19, "true"@));
        assert(s19.skip(4) == tail);
        assert(p_bool(s19) == Some((true, tail)));
    } else {
        assert(!starts_with(s19, "true"@)) by {
            assert(s19[0] == 'f');
            if starts_with(s19, "true"@) {
                assert(s19.take(4)[0] == s19[0]);
            }
        }
        lemma_starts("false"@, tail);
        assert(starts_with(s19, "false"@));
        assert(s19.skip(5) == tail);
        assert(p_bool(s19) == Some((false, tail)));
    }
    assert(tail =~= seq!['\n', ' ', ' '] + (seq!['}'] + rest));
    lemma_pws_chain(seq!['\n', ' ', ' '], seq!['}'] + rest);
    lemma_pws_stop(seq!['}'] + rest);
    let s21 = p_ws(tail);
    assert(s21 == seq!['}'] + rest);
    assert(s21[0] == '}');
    assert(s21.drop_first() =~= rest);
}

/// The rendering of the records after the first, as the array parser
/// walks it: a separator and a record each time, then the closing
/// bracket.
pub open spec fn tail_render(tasks: Seq<Task>) -> Seq<char>
    decreases tasks.len(),
{
    if tasks.len() == 0 {
        seq!['\n', ']']
    } else {
        seq![',', '\n', ' ', ' '] + record_spec(tasks[0]) + tail_render(tasks.drop_first())
    }
}

/// The document text decomposes into the first record and the tail walk.
proof fn lemma_records_decompose(tasks: Seq<Task>)
    requires
        tasks.len() >= 1,
    ensures
        seq!['\n'] + records_spec(tasks) + seq![']'] == (seq!['\n', ' ', ' '] + record_spec(
            tasks[0],
        ) + tail_render(tasks.drop_first())),
    decreases tasks.len(),
{
    if tasks.len() == 1 {
        assert(records_spec(tasks) == seq![' ', ' '] + record_spec(tasks[0]) + seq!['\n']);
        assert(tail_render(tasks.drop_first()) == seq!['\n', ']']);
        assert(seq!['\n'] + (seq![' ', ' '] + record_spec(tasks[0]) + seq!['\n']) + seq![']']
            =~= seq!['\n', ' ', ' '] + record_spec(tasks[0]) + seq!['\n', ']']);
    } else {
        lemma_records_decompose(tasks.drop_first());
        assert(records_spec(tasks) == seq![' ', ' '] + record_spec(tasks[0]) + seq![',', '\n']
            + records_spec(tasks.drop_first()));
        assert(tail_render(tasks.drop_first()) == seq![',', '\n', ' ', ' '] + record_spec(
            tasks.drop_first()[0],
        ) + tail_render(tasks.drop_first().drop_first()));
        assert(seq!['\n'] + records_spec(tasks.drop_first()) + seq![']'] == (seq!['\n', ' ', ' ']
            + record_spec(tasks.drop_first()[0]) + tail_render(tasks.drop_first().drop_first())));
        assert(tail_render(tasks.drop_first()) =~= seq![','] + (seq!['\n'] + records_spec(
            tasks.drop_first(),
        ) + seq![']']));
        assert(seq!['\n'] + records_spec(tasks) + seq![']'] =~= seq!['\n', ' ', ' ']
            + record_spec(tasks[0]) + tail_render(tasks.drop_first()));
    }
}

/// Walking the tail from any parsed record yields that record followed
/// by the remaining ones, and consumes everything.
proof fn lemma_more_records_roundtrip(tasks: Seq<Task>, prev: Task)
    requires
        forall|i: int| 0 <= i < tasks.len() ==> crate::task::task_wf(#[trigger] tasks[i]),
    ensures
        p_more_records(tail_render(tasks), rec_of(prev)) == Some(
            (seq![rec_of(prev)] + tasks.map_values(|x: Task| rec_of(x)), Seq::<char>::empty()),
        ),
    decreases tasks.len(),
{
    let s = tail_render(tasks);
    if tasks.len() == 0 {
        assert(s == seq!['\n', ']']);
        assert(s =~= seq!['\n'] + seq![']']);
        lemma_pws_chain(seq!['\n'], seq![']']);
        lemma_pws_stop(seq![']']);
        let s1 = p_ws(s);
        assert(s1 == seq![']']);
        assert(s1[0] == ']');
        assert(s1.drop_first() =~= Seq::<char>::empty());
        assert(tasks.map_values(|x: Task| rec_of(x)) =~= Seq::<TaskRec>::empty());
        assert(seq![rec_of(prev)] + Seq::<TaskRec>::empty() =~= seq![rec_of(prev)]);
    } else {
        let t0 = tasks[0];
        let tr = tail_render(tasks.drop_first());
        assert(s == seq![',', '\n', ' ', ' '] + record_spec(t0) + tr);
        assert(s =~= seq![','] + (seq!['\n', ' ', ' '] + record_spec(t0) + tr));
        lemma_pws_stop(s);
        let s1 = p_ws(s);
        assert(s1 == s);
        assert(s1[0] == ',');
        assert(s1[0] != ']');
        assert(s1.drop_first() =~= seq!['\n', ' ', ' '] + record_spec(t0) + tr);
        lemma_record_roundtrip(seq!['\n', ' ', ' '], t0, tr);
        assert(p_record(s1.drop_first()) == Some((rec_of(t0), tr)));
        assert(tr.len() < s.len()) by {
            assert(s.len() == 4 + record_spec(t0).len() + tr.len());
            assert(record_spec(t0).len() >= 0);
        }
        lemma_more_records_roundtrip(tasks.drop_first(), t0);
        assert(p_more_records(tr, rec_of(t0)) == Some(
            (
                seq![rec_of(t0)] + tasks.drop_first().map_values(|x: Task| rec_of(x)),
                Seq::<char>::empty(),
            ),
        ));
        assert(seq![rec_of(prev)] + (seq![rec_of(t0)] + tasks.drop_first().map_values(
            |x: Task| rec_of(x),
        )) =~= seq![rec_of(prev)] + tasks.map_values(|x: Task| rec_of(x))) by {
            assert(forall|i: int|
                0 <= i < tasks.len() - 1 ==> tasks.drop_first().map_values(|x: Task| rec_of(x))[i]
                    == rec_of(#[trigger] tasks.drop_first()[i]));
            assert(forall|i: int|
                0 <= i < tasks.len() ==> tasks.map_values(|x: Task| rec_of(x))[i] == rec_of(
                    #[trigger] tasks[i],
                ));
        }
    }
}

/// The round trip: parsing a rendered store gives back exactly the
/// records of the tasks that were rendered. Together with the contracts
/// of `render_document` and `parse_document`, reloading a saved store
/// yields the same ordered sequence.
#[verifier::rlimit(100)]
pub proof fn lemma_document_roundtrip(tasks: Seq<Task>)
    requires
        tasks_wf(tasks),
    ensures
        doc_parse_spec(document_spec(tasks)) == Some(tasks.map_values(|x: Task| rec_of(x))),
{
    let doc = document_spec(tasks);
    if tasks.len() == 0 {
        reveal_strlit("[]");
        assert(doc == "[]"@);
        assert(doc.len() == 2 && doc[0] == '[' && doc[1] == ']');
        lemma_pws_stop(doc);
        let s1 = p_ws(doc);
        assert(s1 == doc);
        assert(s1.drop_first() =~= seq![']']);
        lemma_pws_stop(seq![']']);
        let s2 = p_ws(s1.drop_first());
        assert(s2 == seq![']']);
        assert(s2[0] == ']');
        assert(s2.drop_first() =~= Seq::<char>::empty());
        assert(p_ws(Seq::<char>::empty()).len() == 0);
        assert(tasks.map_values(|x: Task| rec_of(x)) =~= Seq::<TaskRec>::empty());
    } else {
        let t0 = tasks[0];
        assert(doc == seq!['[', '\n'] + records_spec(tasks) + seq![']']);
        lemma_records_decompose(tasks);
        assert(doc =~= seq!['['] + (seq!['\n'] + records_spec(tasks) + seq![']']));
        assert(doc =~= seq!['['] + (seq!['\n', ' ', ' '] + record_spec(t0) + tail_render(
            tasks.drop_first(),
        )));
        assert(doc[0] == '[');
        lemma_pws_stop(doc);
        let s1 = p_ws(doc);
        assert(s1 == doc);
        assert(s1[0] == '[');
        let inner = seq!['\n', ' ', ' '] + record_spec(t0) + tail_render(tasks.drop_first());
        assert(s1.drop_first() =~= inner);
        // the element after the bracket is a record, not the closing bracket
        assert(inner =~= seq!['\n', ' ', ' '] + (record_spec(t0) + tail_render(
            tasks.drop_first(),
        )));
        lemma_pws_chain(
            seq!['\n', ' ', ' '],
            record_spec(t0) + tail_render(tasks.drop_first()),
        );
        assert(record_spec(t0)[0] == '{');
        assert((record_spec(t0) + tail_render(tasks.drop_first()))[0] == '{');
        lemma_pws_stop(record_spec(t0) + tail_render(tasks.drop_first()));
        let s2 = p_ws(s1.drop_first());
        assert(s2 == record_spec(t0) + tail_render(tasks.drop_first()));
        assert(s2[0] == '{');
        assert(s2[0] != ']');
        lemma_record_roundtrip(seq!['\n', ' ', ' '], t0, tail_render(tasks.drop_first()));
        assert(p_record(s1.drop_first()) == Some((rec_of(t0), tail_render(tasks.drop_first()))));
        lemma_more_records_roundtrip(tasks.drop_first(), t0);
        let recs = seq![rec_of(t0)] + tasks.drop_first().map_values(|x: Task| rec_of(x));
        assert(p_more_records(tail_render(tasks.drop_first()), rec_of(t0)) == Some(
            (recs, Seq::<char>::empty()),
        ));
        assert(p_ws(Seq::<char>::empty()).len() == 0);
        assert(recs =~= tasks.map_values(|x: Task| rec_of(x))) by {
            assert(forall|i: int|
                0 <= i < tasks.len() - 1 ==> tasks.drop_first().map_values(|x: Task| rec_of(x))[i]
                    == rec_of(#[trigger] tasks.drop_first()[i]));
            assert(forall|i: int|
                0 <= i < tasks.len() ==> tasks.map_values(|x: Task| rec_of(x))[i] == rec_of(
                    #[trigger] tasks[i],
                ));
        }
        assert(recs_distinct(tasks.map_values(|x: Task| rec_of(x)))) by {
            let m = tasks.map_values(|x: Task| rec_of(x));
            assert(forall|i: int| 0 <= i < tasks.len() ==> (#[trigger] m[i]).id == tasks[i].id);
        }
    }
}

} // verus!
