//! The single-line interactive editor: cursor and buffer state, one
//! transition per keystroke, and the helpers for byte-indexed strings
//! that the terminal layer needs.
//!
//! The editor state itself counts positions in characters, so every
//! cursor position is a character boundary by construction; the
//! byte-level helpers serve callers that index UTF-8 strings by byte.

use vstd::prelude::*;
use vstd::string::*;
use vstd::utf8::is_char_boundary;
use crate::dates::{normalize_spec, parse_date_spec};
use crate::text::{all_whitespace, char_alphanumeric, chars_str, is_alphanumeric_char, str_chars};

verus! {

/// The largest boundary at or below `i` (0 always qualifies).
pub open spec fn snap_down_spec(bytes: Seq<u8>, i: int) -> int
    decreases i,
{
    if i <= 0 {
        0
    } else if is_char_boundary(bytes, i) {
        i
    } else {
        snap_down_spec(bytes, i - 1)
    }
}

/// The smallest boundary at or above `i`, capped at the length.
pub open spec fn snap_up_spec(bytes: Seq<u8>, i: int) -> int
    decreases bytes.len() - i,
{
    if i >= bytes.len() {
        bytes.len() as int
    } else if is_char_boundary(bytes, i) {
        i
    } else {
        snap_up_spec(bytes, i + 1)
    }
}

/// Where the previous-character motion lands: snap the index down to a
/// boundary, then step to the boundary before it.
pub open spec fn prev_char_boundary_spec(bytes: Seq<u8>, idx: int) -> int {
    if idx <= 0 {
        0
    } else {
        let sn = snap_down_spec(bytes, idx);
        if sn > 0 {
            snap_down_spec(bytes, sn - 1)
        } else {
            0
        }
    }
}

/// The byte index of the start of the character before `byte_idx`, or 0
/// at the start of the string.
pub fn prev_char_boundary(s: &str, byte_idx: usize) -> (r: usize)
    ensures
        r as int == prev_char_boundary_spec(s.spec_bytes(), byte_idx as int),
        is_char_boundary(s.spec_bytes(), r as int),
{
    if byte_idx == 0 {
        proof {
            lemma_str_boundaries(s);
        }
        return 0;
    }
    let mut idx = byte_idx;
    while idx > 0 && !s.is_char_boundary(idx)
        invariant
            0 <= idx <= byte_idx,
            snap_down_spec(s.spec_bytes(), byte_idx as int) == snap_down_spec(
                s.spec_bytes(),
                idx as int,
            ),
        decreases idx,
    {
        idx -= 1;
    }
    proof {
        assert(idx as int == snap_down_spec(s.spec_bytes(), idx as int));
        lemma_str_boundaries(s);
    }
    if idx == 0 {
        return 0;
    }
    let mut p = idx - 1;
    while p > 0 && !s.is_char_boundary(p)
        invariant
            0 <= p <= idx - 1,
            snap_down_spec(s.spec_bytes(), idx - 1) == snap_down_spec(s.spec_bytes(), p as int),
        decreases p,
    {
        p -= 1;
    }
    proof {
        assert(p as int == snap_down_spec(s.spec_bytes(), p as int));
    }
    p
}

/// Where the next-character motion lands.
pub open spec fn next_char_boundary_spec(bytes: Seq<u8>, idx: int) -> int {
    if idx >= bytes.len() {
        bytes.len() as int
    } else {
        snap_up_spec(bytes, idx + 1)
    }
}

/// The byte index of the boundary after `byte_idx`, or the length at the
/// end of the string.
pub fn next_char_boundary(s: &str, byte_idx: usize) -> (r: usize)
    ensures
        r as int == next_char_boundary_spec(s.spec_bytes(), byte_idx as int),
        is_char_boundary(s.spec_bytes(), r as int),
{
    let len = s.as_bytes().len();
    if byte_idx >= len {
        proof {
            lemma_str_boundaries(s);
        }
        return len;
    }
    let mut idx = byte_idx + 1;
    while idx < len && !s.is_char_boundary(idx)
        invariant
            byte_idx < idx <= len,
            len == s.spec_bytes().len(),
            snap_up_spec(s.spec_bytes(), byte_idx + 1) == snap_up_spec(s.spec_bytes(), idx as int),
        decreases len - idx,
    {
        idx += 1;
    }
    proof {
        if idx < len {
            assert(idx as int == snap_up_spec(s.spec_bytes(), idx as int));
        } else {
            lemma_str_boundaries(s);
        }
    }
    idx
}

/// A string's byte form is valid UTF-8, so its two ends are character
/// boundaries.
proof fn lemma_str_boundaries(s: &str)
    ensures
        vstd::utf8::valid_utf8(s.spec_bytes()),
        is_char_boundary(s.spec_bytes(), 0),
        is_char_boundary(s.spec_bytes(), s.spec_bytes().len() as int),
{
    vstd::utf8::encode_utf8_valid_utf8(s@);
    vstd::utf8::is_char_boundary_start_end_of_seq(s.spec_bytes());
}

/// How many characters start before byte index `k`.
pub open spec fn char_count_below(bytes: Seq<u8>, k: int) -> int
    decreases k,
{
    if k <= 0 {
        0
    } else {
        char_count_below(bytes, k - 1) + if k - 1 < bytes.len() && is_char_boundary(
            bytes,
            k - 1,
        ) {
            1int
        } else {
            0int
        }
    }
}

/// The number of characters that lie before byte index `byte_idx`; the
/// cursor column is computed in characters, not bytes.
pub fn byte_idx_to_char_count(s: &str, byte_idx: usize) -> (r: usize)
    ensures
        r as int == char_count_below(s.spec_bytes(), byte_idx as int),
{
    let len = s.as_bytes().len();
    let stop = if byte_idx < len {
        byte_idx
    } else {
        len
    };
    let mut count: usize = 0;
    let mut i: usize = 0;
    while i < stop
        invariant
            i <= stop <= len,
            len == s.spec_bytes().len(),
            count as int == char_count_below(s.spec_bytes(), i as int),
            count <= i,
        decreases stop - i,
    {
        if s.is_char_boundary(i) {
            count += 1;
        }
        i += 1;
    }
    proof {
        lemma_char_count_stable(s.spec_bytes(), stop as int, byte_idx as int);
    }
    count
}

/// Counting past the end of the bytes adds nothing.
proof fn lemma_char_count_stable(bytes: Seq<u8>, stop: int, k: int)
    requires
        stop == if k < bytes.len() {
            k
        } else {
            bytes.len() as int
        },
        0 <= stop,
    ensures
        char_count_below(bytes, k) == char_count_below(bytes, stop),
    decreases k,
{
    if k > stop {
        lemma_char_count_stable(bytes, stop, k - 1);
    }
}

/// A word character: alphanumeric, underscore, or hyphen.
pub open spec fn word_char(c: char) -> bool {
    char_alphanumeric(c) || c == '_' || c == '-'
}

/// Whether `c` belongs to a word for the purposes of word motion.
pub fn is_word_char(c: char) -> (r: bool)
    ensures
        r == word_char(c),
{
    is_alphanumeric_char(c) || c == '_' || c == '-'
}

pub open spec fn skip_word_back(s: Seq<char>, i: int) -> int
    decreases i,
{
    if 0 < i < s.len() && word_char(s[i]) {
        skip_word_back(s, i - 1)
    } else {
        i
    }
}

pub open spec fn skip_nonword_back(s: Seq<char>, i: int) -> int
    decreases i,
{
    if 0 < i < s.len() && !word_char(s[i]) {
        skip_nonword_back(s, i - 1)
    } else {
        i
    }
}

pub open spec fn word_start_back(s: Seq<char>, i: int) -> int
    decreases i,
{
    if 0 < i <= s.len() && 1 <= i && word_char(s[i - 1]) {
        word_start_back(s, i - 1)
    } else {
        i
    }
}

/// Where a backward word jump from `cursor` lands: skip the word under
/// the cursor, then separators, then move to the start of the word so
/// reached. Positions count characters.
pub open spec fn jump_prev_spec(s: Seq<char>, cursor: int) -> int {
    if cursor <= 0 {
        0
    } else {
        let i1 = skip_word_back(s, cursor - 1);
        let i2 = skip_nonword_back(s, i1);
        if 0 <= i2 < s.len() && word_char(s[i2]) {
            word_start_back(s, i2)
        } else if i2 + 1 < cursor {
            i2 + 1
        } else {
            i2
        }
    }
}

pub open spec fn skip_word_fwd(s: Seq<char>, i: int) -> int
    decreases s.len() - i,
{
    if 0 <= i < s.len() && word_char(s[i]) {
        skip_word_fwd(s, i + 1)
    } else {
        i
    }
}

pub open spec fn skip_nonword_fwd(s: Seq<char>, i: int) -> int
    decreases s.len() - i,
{
    if 0 <= i < s.len() && !word_char(s[i]) {
        skip_nonword_fwd(s, i + 1)
    } else {
        i
    }
}

/// Where a forward word jump from `cursor` lands: past the word under
/// the cursor, then past separators, onto the next word start (or the
/// end).
pub open spec fn jump_next_spec(s: Seq<char>, cursor: int) -> int {
    if cursor >= s.len() {
        s.len() as int
    } else {
        skip_nonword_fwd(s, skip_word_fwd(s, cursor))
    }
}

/// Backward word jump over a character slice.
pub fn jump_prev_word_chars(v: &[char], cursor: usize) -> (r: usize)
    requires
        cursor <= v@.len(),
    ensures
        r as int == jump_prev_spec(v@, cursor as int),
        r <= cursor,
{
    proof {
        lemma_jump_prev_bounds(v@, cursor as int);
    }
    if cursor == 0 {
        return 0;
    }
    let mut i = cursor - 1;
    while i > 0 && is_word_char(v[i])
        invariant
            0 <= i <= cursor - 1,
            cursor <= v@.len(),
            skip_word_back(v@, cursor - 1) == skip_word_back(v@, i as int),
        decreases i,
    {
        i -= 1;
    }
    proof {
        assert(i as int == skip_word_back(v@, i as int));
    }
    let ghost i1 = i as int;
    while i > 0 && !is_word_char(v[i])
        invariant
            0 <= i <= i1 < v@.len(),
            skip_nonword_back(v@, i1) == skip_nonword_back(v@, i as int),
        decreases i,
    {
        i -= 1;
    }
    proof {
        assert(i as int == skip_nonword_back(v@, i as int));
    }
    if is_word_char(v[i]) {
        let ghost i2 = i as int;
        while i > 0 && is_word_char(v[i - 1])
            invariant
                0 <= i <= i2 < v@.len(),
                word_start_back(v@, i2) == word_start_back(v@, i as int),
            decreases i,
        {
            i -= 1;
        }
        proof {
            assert(i as int == word_start_back(v@, i as int));
        }
        i
    } else {
        if i + 1 < cursor {
            i + 1
        } else {
            i
        }
    }
}

/// Forward word jump over a character slice.
pub fn jump_next_word_chars(v: &[char], cursor: usize) -> (r: usize)
    requires
        cursor <= v@.len(),
    ensures
        r as int == jump_next_spec(v@, cursor as int),
        cursor <= r <= v@.len(),
{
    proof {
        lemma_jump_next_bounds(v@, cursor as int);
    }
    let len = v.len();
    if cursor >= len {
        return len;
    }
    let mut i = cursor;
    while i < len && is_word_char(v[i])
        invariant
            cursor <= i <= len,
            len == v@.len(),
            skip_word_fwd(v@, cursor as int) == skip_word_fwd(v@, i as int),
        decreases len - i,
    {
        i += 1;
    }
    proof {
        assert(i as int == skip_word_fwd(v@, i as int));
    }
    let ghost i1 = i as int;
    while i < len && !is_word_char(v[i])
        invariant
            i1 <= i <= len,
            len == v@.len(),
            skip_nonword_fwd(v@, i1) == skip_nonword_fwd(v@, i as int),
        decreases len - i,
    {
        i += 1;
    }
    proof {
        assert(i as int == skip_nonword_fwd(v@, i as int));
    }
    i
}

proof fn lemma_skip_word_back_bounds(s: Seq<char>, i: int)
    requires
        0 <= i,
    ensures
        0 <= skip_word_back(s, i) <= i,
    decreases i,
{
    if 0 < i < s.len() && word_char(s[i]) {
        lemma_skip_word_back_bounds(s, i - 1);
    }
}

proof fn lemma_skip_nonword_back_bounds(s: Seq<char>, i: int)
    requires
        0 <= i,
    ensures
        0 <= skip_nonword_back(s, i) <= i,
    decreases i,
{
    if 0 < i < s.len() && !word_char(s[i]) {
        lemma_skip_nonword_back_bounds(s, i - 1);
    }
}

proof fn lemma_word_start_back_bounds(s: Seq<char>, i: int)
    requires
        0 <= i,
    ensures
        0 <= word_start_back(s, i) <= i,
    decreases i,
{
    if 0 < i <= s.len() && 1 <= i && word_char(s[i - 1]) {
        lemma_word_start_back_bounds(s, i - 1);
    }
}

/// A backward jump never moves the cursor forward.
pub proof fn lemma_jump_prev_bounds(s: Seq<char>, cursor: int)
    ensures
        0 <= jump_prev_spec(s, cursor) <= if cursor >= 0 {
            cursor
        } else {
            0
        },
{
    if cursor > 0 {
        lemma_skip_word_back_bounds(s, cursor - 1);
        let i1 = skip_word_back(s, cursor - 1);
        lemma_skip_nonword_back_bounds(s, i1);
        let i2 = skip_nonword_back(s, i1);
        if 0 <= i2 < s.len() && word_char(s[i2]) {
            lemma_word_start_back_bounds(s, i2);
        }
    }
}

proof fn lemma_skip_word_fwd_bounds(s: Seq<char>, i: int)
    requires
        0 <= i <= s.len(),
    ensures
        i <= skip_word_fwd(s, i) <= s.len(),
    decreases s.len() - i,
{
    if 0 <= i < s.len() && word_char(s[i]) {
        lemma_skip_word_fwd_bounds(s, i + 1);
    }
}

proof fn lemma_skip_nonword_fwd_bounds(s: Seq<char>, i: int)
    requires
        0 <= i <= s.len(),
    ensures
        i <= skip_nonword_fwd(s, i) <= s.len(),
    decreases s.len() - i,
{
    if 0 <= i < s.len() && !word_char(s[i]) {
        lemma_skip_nonword_fwd_bounds(s, i + 1);
    }
}

/// A forward jump never moves the cursor back, and stays in the buffer.
pub proof fn lemma_jump_next_bounds(s: Seq<char>, cursor: int)
    requires
        0 <= cursor <= s.len(),
    ensures
        cursor <= jump_next_spec(s, cursor) <= s.len(),
{
    if cursor < s.len() {
        lemma_skip_word_fwd_bounds(s, cursor);
        lemma_skip_nonword_fwd_bounds(s, skip_word_fwd(s, cursor));
    }
}

/// Backward word jump in a string, positions in characters.
pub fn jump_prev_word(s: &str, cursor: usize) -> (r: usize)
    requires
        cursor <= s@.len(),
    ensures
        r as int == jump_prev_spec(s@, cursor as int),
        r <= cursor,
{
    let v = str_chars(s);
    jump_prev_word_chars(v.as_slice(), cursor)
}

/// Forward word jump in a string, positions in characters.
pub fn jump_next_word(s: &str, cursor: usize) -> (r: usize)
    requires
        cursor <= s@.len(),
    ensures
        r as int == jump_next_spec(s@, cursor as int),
        cursor <= r <= s@.len(),
{
    let v = str_chars(s);
    jump_next_word_chars(v.as_slice(), cursor)
}

/// Where the ghost suggestion resumes for a byte-indexed cursor: at the
/// cursor when it sits on a boundary inside the prefill, else at the
/// next boundary.
pub open spec fn ghost_suffix_start(bytes: Seq<u8>, cursor: int) -> int {
    if cursor < bytes.len() && is_char_boundary(bytes, cursor) {
        cursor
    } else {
        next_char_boundary_spec(
            bytes,
            if cursor < bytes.len() {
                cursor
            } else {
                bytes.len() as int
            },
        )
    }
}

/// The part of the prefill still shown as a ghost suggestion: everything,
/// with the cursor at the start; the tail from the cursor on, while the
/// cursor sits inside it; nothing once the cursor has passed its end.
pub fn calculate_ghost_suffix<'a>(
    ghost_active: bool,
    cursor_index: usize,
    normalized_prefill: &'a str,
) -> (r: Option<&'a str>)
    ensures
        r is Some <==> ghost_active && (cursor_index == 0 || ghost_suffix_start(
            normalized_prefill.spec_bytes(),
            cursor_index as int,
        ) < normalized_prefill.spec_bytes().len()),
        r matches Some(g) ==> g.spec_bytes() == (if cursor_index == 0 {
            normalized_prefill.spec_bytes()
        } else {
            normalized_prefill.spec_bytes().subrange(
                ghost_suffix_start(normalized_prefill.spec_bytes(), cursor_index as int),
                normalized_prefill.spec_bytes().len() as int,
            )
        }),
{
    if !ghost_active {
        return None;
    }
    if cursor_index == 0 {
        proof {
            assert(normalized_prefill.spec_bytes().subrange(
                0,
                normalized_prefill.spec_bytes().len() as int,
            ) =~= normalized_prefill.spec_bytes());
        }
        return Some(normalized_prefill);
    }
    let len = normalized_prefill.as_bytes().len();
    let safe_idx = if cursor_index < len && normalized_prefill.is_char_boundary(cursor_index) {
        cursor_index
    } else {
        let capped = if cursor_index < len {
            cursor_index
        } else {
            len
        };
        next_char_boundary(normalized_prefill, capped)
    };
    if safe_idx < len {
        let (_, tail) = normalized_prefill.split_at(safe_idx);
        Some(tail)
    } else {
        None
    }
}

/// The live validation applied at Enter.
#[derive(Debug, Clone, Copy, PartialEq, Eq, Structural)]
pub enum Validator {
    /// Accept anything.
    NoCheck,
    /// The trimmed buffer must normalize into a real calendar date.
    DateCheck,
}

/// One keystroke, after the terminal layer has decoded modifiers: the
/// control-arrow word jumps, Ctrl+W and Ctrl+Backspace both arrive as
/// `CtrlW`, and Tab and Ctrl+Up both arrive as `Tab`.
#[derive(Debug, Clone, Copy, PartialEq, Eq, Structural)]
pub enum Key {
    Char(char),
    Enter,
    Esc,
    Backspace,
    Delete,
    Left,
    Right,
    Home,
    End,
    CtrlLeft,
    CtrlRight,
    CtrlW,
    Tab,
    CtrlC,
    CtrlD,
}

/// What a keystroke led to. The terminal layer keeps reading keys on
/// `Pending` and `Bell`, and acts on the rest: `Skip` abandons the
/// current task, the exit variants end the process (interrupt with
/// code 130, the others with 0).
#[derive(Debug, PartialEq)]
pub enum KeyOutcome {
    Pending,
    Bell,
    Submit(String),
    Skip,
    ExitInterrupt,
    ExitEof,
    ExitNothingChanged,
}

/// The editor state: a character buffer, a cursor counted in
/// characters, and the ghost suggestion taken from the prefill.
pub struct LineEditor {
    pub buffer: Vec<char>,
    pub cursor: usize,
    pub ghost_active: bool,
    pub prefill: Vec<char>,
    pub validator: Validator,
    pub allow_skip: bool,
}

/// The first line of a string, as the editor normalizes its prefill: cut
/// at the first line feed, with one trailing carriage return stripped.
pub open spec fn first_line_spec(s: Seq<char>) -> Seq<char> {
    let cut = line_cut(s);
    let t = s.take(cut);
    if t.len() > 0 && t[t.len() - 1] == '\r' {
        t.drop_last()
    } else {
        t
    }
}

/// The index of the first line feed, or the length.
pub open spec fn line_cut(s: Seq<char>) -> int
    decreases s.len(),
{
    if s.len() == 0 {
        0
    } else if s[0] == '\n' {
        0
    } else {
        1 + line_cut(s.drop_first())
    }
}

proof fn lemma_line_cut_bounds(s: Seq<char>)
    ensures
        0 <= line_cut(s) <= s.len(),
        forall|j: int| 0 <= j < line_cut(s) ==> s[j] != '\n',
        line_cut(s) < s.len() ==> s[line_cut(s)] == '\n',
    decreases s.len(),
{
    if s.len() > 0 && s[0] != '\n' {
        lemma_line_cut_bounds(s.drop_first());
        assert forall|j: int| 0 <= j < line_cut(s) implies s[j] != '\n' by {
            if j > 0 {
                assert(s.drop_first()[j - 1] == s[j]);
            }
        }
    }
}

/// The prefill cut to its first line.
fn first_line(v: &[char]) -> (r: Vec<char>)
    ensures
        r@ == first_line_spec(v@),
{
    proof {
        lemma_line_cut_bounds(v@);
    }
    let mut cut: usize = 0;
    while cut < v.len() && v[cut] != '\n'
        invariant
            cut <= v@.len(),
            forall|j: int| 0 <= j < cut ==> v@[j] != '\n',
        decreases v@.len() - cut,
    {
        cut += 1;
    }
    proof {
        assert(cut as int == line_cut(v@)) by {
            lemma_line_cut_bounds(v@);
            if (cut as int) < line_cut(v@) {
                assert(v@[cut as int] != '\n');
            }
            if (cut as int) > line_cut(v@) {
                assert(v@[line_cut(v@)] != '\n');
            }
        }
    }
    let end = if cut > 0 && v[cut - 1] == '\r' {
        cut - 1
    } else {
        cut
    };
    let mut r: Vec<char> = Vec::new();
    let mut i: usize = 0;
    while i < end
        invariant
            i <= end <= v@.len(),
            r@ == v@.subrange(0, i as int),
        decreases end - i,
    {
        r.push(v[i]);
        proof {
            assert(v@.subrange(0, i + 1) =~= v@.subrange(0, i as int).push(v@[i as int]));
        }
        i += 1;
    }
    proof {
        let t = v@.take(line_cut(v@));
        if t.len() > 0 && t[t.len() - 1] == '\r' {
            assert(r@ =~= t.drop_last());
        } else {
            assert(r@ =~= t);
        }
    }
    r
}

/// The trimmed buffer is non-empty but does not normalize into a real
/// date: with the date validator set, Enter refuses such a buffer.
pub open spec fn enter_rejected(ed: LineEditor) -> bool {
    &&& ed.validator is DateCheck
    &&& !crate::text::all_whitespace(ed.buffer@)
    &&& parse_date_spec(normalize_spec(crate::text::trim_spec(ed.buffer@))) is None
}

impl LineEditor {
    /// The cursor always sits inside the buffer.
    pub open spec fn wf(&self) -> bool {
        self.cursor <= self.buffer@.len()
    }

    /// A fresh editor. The prefill is cut to its first line; with the
    /// ghost flag the buffer starts empty and the prefill is shown as a
    /// suggestion, otherwise the buffer starts as the prefill with the
    /// cursor at its start or end.
    pub fn new(
        prefill: &str,
        cursor_at_start: bool,
        use_ghost_prefill: bool,
        validator: Validator,
        allow_skip: bool,
    ) -> (ed: LineEditor)
        ensures
            ed.wf(),
            ed.prefill@ == first_line_spec(prefill@),
            ed.validator == validator,
            ed.allow_skip == allow_skip,
            ed.buffer@ == if use_ghost_prefill {
                Seq::<char>::empty()
            } else {
                first_line_spec(prefill@)
            },
            ed.cursor == if use_ghost_prefill || cursor_at_start {
                0int
            } else {
                first_line_spec(prefill@).len() as int
            },
            ed.ghost_active == (use_ghost_prefill && first_line_spec(prefill@).len() > 0),
    {
        let chars = str_chars(prefill);
        let normalized = first_line(chars.as_slice());
        let ghost_active = use_ghost_prefill && normalized.len() > 0;
        let buffer: Vec<char> = if use_ghost_prefill {
            Vec::new()
        } else {
            let mut b: Vec<char> = Vec::new();
            crate::text::append_chars(&mut b, normalized.as_slice());
            proof {
                assert(b@ =~= normalized@);
            }
            b
        };
        let cursor: usize = if use_ghost_prefill || cursor_at_start {
            0
        } else {
            buffer.len()
        };
        LineEditor { buffer, cursor, ghost_active, prefill: normalized, validator, allow_skip }
    }

    /// One keystroke. Every binding of the editor is stated here: how the
    /// buffer, cursor and ghost change, and which outcome the terminal
    /// layer must act on.
    pub fn apply_key(&mut self, key: Key) -> (r: KeyOutcome)
        requires
            old(self).wf(),
        ensures
            final(self).wf(),
            final(self).prefill == old(self).prefill,
            final(self).validator == old(self).validator,
            final(self).allow_skip == old(self).allow_skip,
            match key {
                Key::CtrlC => r == KeyOutcome::ExitInterrupt && *final(self) == *old(self),
                Key::CtrlD => r == KeyOutcome::ExitEof && *final(self) == *old(self),
                Key::Esc => *final(self) == *old(self) && r == (if old(self).allow_skip {
                    KeyOutcome::Skip
                } else {
                    KeyOutcome::ExitNothingChanged
                }),
                Key::Enter => *final(self) == *old(self) && (if enter_rejected(*old(self)) {
                    r == KeyOutcome::Bell
                } else {
                    r matches KeyOutcome::Submit(s) && s@ == old(self).buffer@
                }),
                Key::CtrlLeft => r == KeyOutcome::Pending && final(self).buffer == old(self).buffer
                    && final(self).ghost_active == old(self).ghost_active && final(self).cursor
                    as int == jump_prev_spec(old(self).buffer@, old(self).cursor as int),
                Key::CtrlRight => r == KeyOutcome::Pending && final(self).buffer == old(self).buffer && final(self).ghost_active == old(self).ghost_active && final(self).cursor as int == jump_next_spec(old(self).buffer@, old(self).cursor as int),
                Key::Tab => r == KeyOutcome::Pending && final(self).ghost_active == false && (
                if old(self).prefill@.len() > 0 {
                    final(self).buffer@ == old(self).prefill@ && final(self).cursor == old(self).prefill@.len()
                } else {
                    final(self).buffer@.len() == 0 && final(self).cursor == 0
                }),
                Key::CtrlW => r == KeyOutcome::Pending && final(self).ghost_active == old(self).ghost_active && (if old(self).cursor > 0 {
                    let p = jump_prev_spec(old(self).buffer@, old(self).cursor as int);
                    final(self).buffer@ == old(self).buffer@.take(p) + old(self).buffer@.skip(
                        old(self).cursor as int,
                    ) && final(self).cursor as int == p
                } else {
                    *final(self) == *old(self)
                }),
                Key::Left => r == KeyOutcome::Pending && final(self).buffer == old(self).buffer
                    && final(self).ghost_active == old(self).ghost_active && final(self).cursor
                    as int == (if old(self).cursor > 0 {
                    old(self).cursor - 1
                } else {
                    0int
                }),
                Key::Right => r == KeyOutcome::Pending && final(self).buffer == old(self).buffer
                    && final(self).ghost_active == old(self).ghost_active && final(self).cursor
                    as int == (if old(self).cursor < old(self).buffer@.len() {
                    old(self).cursor + 1
                } else {
                    old(self).buffer@.len() as int
                }),
                Key::Home => r == KeyOutcome::Pending && final(self).buffer == old(self).buffer
                    && final(self).ghost_active == old(self).ghost_active && final(self).cursor
                    == 0,
                Key::End => r == KeyOutcome::Pending && final(self).buffer == old(self).buffer
                    && final(self).ghost_active == old(self).ghost_active && final(self).cursor
                    == old(self).buffer@.len(),
                Key::Backspace => r == KeyOutcome::Pending && final(self).ghost_active == old(self).ghost_active && (if old(self).cursor > 0 {
                    final(self).buffer@ == old(self).buffer@.remove(old(self).cursor - 1)
                        && final(self).cursor == old(self).cursor - 1
                } else {
                    *final(self) == *old(self)
                }),
                Key::Delete => r == KeyOutcome::Pending && final(self).ghost_active == old(self).ghost_active && final(self).cursor == old(self).cursor && (if old(self).cursor
                    < old(self).buffer@.len() {
                    final(self).buffer@ == old(self).buffer@.remove(old(self).cursor as int)
                } else {
                    *final(self) == *old(self)
                }),
                Key::Char(c) => r == KeyOutcome::Pending && final(self).ghost_active == false && (
                if old(self).ghost_active {
                    final(self).buffer@ == seq![c] && final(self).cursor == 1
                } else {
                    final(self).buffer@ == old(self).buffer@.insert(old(self).cursor as int, c)
                        && final(self).cursor == old(self).cursor + 1
                }),
            },
    {
        match key {
            Key::CtrlC => KeyOutcome::ExitInterrupt,
            Key::CtrlD => KeyOutcome::ExitEof,
            Key::Esc => {
                if self.allow_skip {
                    KeyOutcome::Skip
                } else {
                    KeyOutcome::ExitNothingChanged
                }
            },
            Key::Enter => {
                let rejected = match self.validator {
                    Validator::NoCheck => false,
                    Validator::DateCheck => {
                        if crate::text::is_blank(self.buffer.as_slice()) {
                            false
                        } else {
                            let trimmed = crate::text::trim_chars(self.buffer.as_slice());
                            let trimmed_str = chars_str(trimmed.as_slice());
                            let normalized = crate::dates::normalize_date_string(
                                trimmed_str.as_str(),
                            );
                            crate::dates::parse_date(normalized.as_str()).is_none()
                        }
                    },
                };
                if rejected {
                    KeyOutcome::Bell
                } else {
                    KeyOutcome::Submit(chars_str(self.buffer.as_slice()))
                }
            },
            Key::CtrlLeft => {
                self.cursor = jump_prev_word_chars(self.buffer.as_slice(), self.cursor);
                KeyOutcome::Pending
            },
            Key::CtrlRight => {
                self.cursor = jump_next_word_chars(self.buffer.as_slice(), self.cursor);
                KeyOutcome::Pending
            },
            Key::Tab => {
                if self.prefill.len() > 0 {
                    let mut b: Vec<char> = Vec::new();
                    crate::text::append_chars(&mut b, self.prefill.as_slice());
                    proof {
                        assert(b@ =~= self.prefill@);
                    }
                    self.cursor = b.len();
                    self.buffer = b;
                } else {
                    self.buffer = Vec::new();
                    self.cursor = 0;
                }
                self.ghost_active = false;
                KeyOutcome::Pending
            },
            Key::CtrlW => {
                if self.cursor > 0 {
                    let p = jump_prev_word_chars(self.buffer.as_slice(), self.cursor);
                    let mut b: Vec<char> = Vec::new();
                    let mut i: usize = 0;
                    while i < p
                        invariant
                            i <= p,
                            p <= self.cursor <= self.buffer@.len(),
                            b@ == self.buffer@.take(i as int),
                        decreases p - i,
                    {
                        b.push(self.buffer[i]);
                        proof {
                            assert(self.buffer@.take(i + 1) =~= self.buffer@.take(
                                i as int,
                            ).push(self.buffer@[i as int]));
                        }
                        i += 1;
                    }
                    let mut j: usize = self.cursor;
                    let n = self.buffer.len();
                    while j < n
                        invariant
                            self.cursor <= j <= n,
                            n == self.buffer@.len(),
                            p <= self.cursor,
                            b@ == self.buffer@.take(p as int) + self.buffer@.subrange(
                                self.cursor as int,
                                j as int,
                            ),
                        decreases n - j,
                    {
                        b.push(self.buffer[j]);
                        proof {
                            assert(self.buffer@.subrange(self.cursor as int, j + 1)
                                =~= self.buffer@.subrange(self.cursor as int, j as int).push(
                                self.buffer@[j as int],
                            ));
                            assert((self.buffer@.take(p as int) + self.buffer@.subrange(
                                self.cursor as int,
                                j as int,
                            )).push(self.buffer@[j as int]) =~= self.buffer@.take(p as int)
                                + self.buffer@.subrange(self.cursor as int, j + 1));
                        }
                        j += 1;
                    }
                    proof {
                        assert(self.buffer@.subrange(
                            self.cursor as int,
                            self.buffer@.len() as int,
                        ) =~= self.buffer@.skip(self.cursor as int));
                    }
                    self.buffer = b;
                    self.cursor = p;
                }
                KeyOutcome::Pending
            },
            Key::Left => {
                if self.cursor > 0 {
                    self.cursor = self.cursor - 1;
                }
                KeyOutcome::Pending
            },
            Key::Right => {
                if self.cursor < self.buffer.len() {
                    self.cursor = self.cursor + 1;
                }
                KeyOutcome::Pending
            },
            Key::Home => {
                self.cursor = 0;
                KeyOutcome::Pending
            },
            Key::End => {
                self.cursor = self.buffer.len();
                KeyOutcome::Pending
            },
            Key::Backspace => {
                if self.cursor > 0 {
                    self.buffer.remove(self.cursor - 1);
                    self.cursor = self.cursor - 1;
                }
                KeyOutcome::Pending
            },
            Key::Delete => {
                if self.cursor < self.buffer.len() {
                    self.buffer.remove(self.cursor);
                }
                KeyOutcome::Pending
            },
            Key::Char(c) => {
                if self.ghost_active {
                    self.buffer = Vec::new();
                    self.ghost_active = false;
                    self.cursor = 0;
                }
                self.buffer.insert(self.cursor, c);
                let n = self.buffer.len();
                proof {
                    assert(self.cursor < n);
                }
                self.cursor = self.cursor + 1;
                proof {
                    if old(self).ghost_active {
                        assert(self.buffer@ =~= seq![c]);
                    }
                }
                KeyOutcome::Pending
            },
        }
    }
}

/// How the buffer is painted under live validation.
#[derive(Debug, Clone, Copy, PartialEq, Eq, Structural)]
pub enum TextTone {
    /// No validator, or nothing but whitespace yet: the plain color.
    Plain,
    /// The trimmed buffer normalizes into a real date.
    Valid,
    /// It does not.
    Invalid,
}

/// Everything the terminal layer needs to redraw the line after a key.
pub struct RenderPlan {
    /// The buffer as text.
    pub text: String,
    /// How to color it.
    pub tone: TextTone,
    /// The ghost suggestion to paint dimly after the buffer, if any.
    pub ghost_text: Option<String>,
    /// The column for the cursor: prompt width plus the characters left
    /// of the cursor.
    pub cursor_col: usize,
    /// How many cells to blank before redrawing: prompt width plus the
    /// longer of buffer and prefill, with slack for stale color codes.
    pub clear_len: usize,
}

impl LineEditor {
    /// The redraw plan for the current state.
    pub fn render(&self, prompt_width: usize) -> (r: RenderPlan)
        requires
            self.wf(),
            prompt_width + self.buffer@.len() + self.prefill@.len() + 16 < usize::MAX,
        ensures
            r.text@ == self.buffer@,
            r.cursor_col == prompt_width + self.cursor,
            r.clear_len == prompt_width + (if self.buffer@.len() >= self.prefill@.len() {
                self.buffer@.len()
            } else {
                self.prefill@.len()
            }) + 16,
            r.tone == (if self.validator is NoCheck || all_whitespace(self.buffer@) {
                TextTone::Plain
            } else if parse_date_spec(
                normalize_spec(crate::text::trim_spec(self.buffer@)),
            ) is Some {
                TextTone::Valid
            } else {
                TextTone::Invalid
            }),
            r.ghost_text is Some <==> (self.ghost_active && self.cursor < self.prefill@.len()),
            r.ghost_text matches Some(g) ==> g@ == self.prefill@.skip(self.cursor as int),
    {
        let text = chars_str(self.buffer.as_slice());
        let tone = match self.validator {
            Validator::NoCheck => TextTone::Plain,
            Validator::DateCheck => {
                if crate::text::is_blank(self.buffer.as_slice()) {
                    TextTone::Plain
                } else {
                    let trimmed = crate::text::trim_chars(self.buffer.as_slice());
                    let trimmed_str = chars_str(trimmed.as_slice());
                    let normalized = crate::dates::normalize_date_string(trimmed_str.as_str());
                    if crate::dates::parse_date(normalized.as_str()).is_some() {
                        TextTone::Valid
                    } else {
                        TextTone::Invalid
                    }
                }
            },
        };
        let ghost_text: Option<String> = if self.ghost_active && self.cursor < self.prefill.len() {
            let mut tail: Vec<char> = Vec::new();
            let mut i: usize = self.cursor;
            let n = self.prefill.len();
            while i < n
                invariant
                    self.cursor <= i <= n,
                    n == self.prefill@.len(),
                    tail@ == self.prefill@.subrange(self.cursor as int, i as int),
                decreases n - i,
            {
                tail.push(self.prefill[i]);
                proof {
                    assert(self.prefill@.subrange(self.cursor as int, i + 1)
                        =~= self.prefill@.subrange(self.cursor as int, i as int).push(
                        self.prefill@[i as int],
                    ));
                }
                i += 1;
            }
            proof {
                assert(tail@ =~= self.prefill@.skip(self.cursor as int));
            }
            Some(chars_str(tail.as_slice()))
        } else {
            None
        };
        let longer = if self.buffer.len() >= self.prefill.len() {
            self.buffer.len()
        } else {
            self.prefill.len()
        };
        RenderPlan {
            text,
            tone,
            ghost_text,
            cursor_col: prompt_width + self.cursor,
            clear_len: prompt_width + longer + 16,
        }
    }
}


} // verus!
