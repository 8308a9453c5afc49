//! The identifier lists on the command line: comma-separated
//! identifiers for delete and mark, and the mixed identifier-then-text
//! arguments of edit.

use vstd::prelude::*;
use crate::numbers::{is_uint_str, parse_u8_chars, uint_str_value};
use crate::text::{split_chars, split_spec, str_chars, str_eq, trim_chars, trim_spec};

verus! {

/// `s` holds the character `c` somewhere.
pub open spec fn contains_char(s: Seq<char>, c: char) -> bool {
    exists|i: int| 0 <= i < s.len() && s[i] == c
}

/// Whether a trimmed piece names an identifier: a decimal in 0..=255,
/// as the integer parser reads it.
pub open spec fn piece_id(part: Seq<char>) -> Option<u8> {
    let t = trim_spec(part);
    if t.len() > 0 && is_uint_str(t) && uint_str_value(t) <= 255 {
        Some(uint_str_value(t) as u8)
    } else {
        None
    }
}

/// The identifiers of the comma-separated pieces, invalid pieces
/// silently dropped.
pub open spec fn ids_of_parts(parts: Seq<Seq<char>>) -> Seq<u8>
    decreases parts.len(),
{
    if parts.len() == 0 {
        Seq::empty()
    } else {
        ids_of_parts(parts.drop_last()) + (match piece_id(parts.last()) {
            Some(v) => seq![v],
            None => Seq::<u8>::empty(),
        })
    }
}

/// The identifiers one argument denotes: its trimmed text split on
/// commas, each piece that names an identifier contributing one, in
/// order. A token without commas is the one-piece case of the same rule.
pub open spec fn arg_ids(arg: Seq<char>) -> Seq<u8> {
    ids_of_parts(split_spec(trim_spec(arg), ','))
}

/// What the identifier syntax denotes: every token contributes its
/// identifiers, in caller order.
pub open spec fn flexible_ids_spec(args: Seq<Seq<char>>) -> Seq<u8>
    decreases args.len(),
{
    if args.len() == 0 {
        Seq::empty()
    } else {
        flexible_ids_spec(args.drop_last()) + arg_ids(args.last())
    }
}

/// The identifiers of one comma-separated argument.
fn parse_comma_pieces(t: &[char]) -> (r: Vec<u8>)
    ensures
        r@ == ids_of_parts(split_spec(t@, ',')),
{
    let parts = split_chars(t, ',');
    let ghost sparts = split_spec(t@, ',');
    let mut r: Vec<u8> = Vec::new();
    let mut i: usize = 0;
    proof {
        assert(sparts.take(0) =~= Seq::<Seq<char>>::empty());
    }
    while i < parts.len()
        invariant
            i <= parts@.len(),
            parts@.map_values(|p: Vec<char>| p@) == sparts,
            r@ == ids_of_parts(sparts.take(i as int)),
        decreases parts@.len() - i,
    {
        proof {
            assert(sparts.take(i + 1).drop_last() =~= sparts.take(i as int));
            assert(sparts.take(i + 1).last() == sparts[i as int]);
            assert(sparts[i as int] == parts@[i as int]@);
        }
        let pt = trim_chars(parts[i].as_slice());
        if pt.len() > 0 {
            match parse_u8_chars(pt.as_slice()) {
                Some(v) => {
                    r.push(v);
                    proof {
                        assert(r@ =~= ids_of_parts(sparts.take(i + 1)));
                    }
                },
                None => {},
            }
        }
        i += 1;
    }
    proof {
        assert(sparts.take(sparts.len() as int) =~= sparts);
    }
    r
}

/// Whether `v` holds a comma.
fn has_comma(v: &[char]) -> (r: bool)
    ensures
        r == contains_char(v@, ','),
{
    let mut i: usize = 0;
    while i < v.len()
        invariant
            i <= v@.len(),
            forall|j: int| 0 <= j < i ==> v@[j] != ',',
        decreases v@.len() - i,
    {
        if v[i] == ',' {
            return true;
        }
        i += 1;
    }
    false
}

/// Reads identifier arguments: a single integer per token, or
/// comma-separated lists, in any combination of tokens; commas may be
/// surrounded by blanks and invalid pieces are silently dropped.
pub fn parse_flexible_ids(args: &[String]) -> (r: Vec<u8>)
    ensures
        r@ == flexible_ids_spec(args@.map_values(|a: String| a@)),
{
    let ghost sargs = args@.map_values(|a: String| a@);
    let mut ids: Vec<u8> = Vec::new();
    let mut k: usize = 0;
    proof {
        assert(sargs.take(0) =~= Seq::<Seq<char>>::empty());
    }
    while k < args.len()
        invariant
            k <= args@.len(),
            sargs == args@.map_values(|a: String| a@),
            ids@ == flexible_ids_spec(sargs.take(k as int)),
        decreases args@.len() - k,
    {
        proof {
            assert(sargs.take(k + 1).drop_last() =~= sargs.take(k as int));
            assert(sargs.take(k + 1).last() == sargs[k as int]);
        }
        let v = str_chars(args[k].as_str());
        let t = trim_chars(v.as_slice());
        let piece_ids = parse_comma_pieces(t.as_slice());
        crate::text::append_u8(&mut ids, piece_ids.as_slice());
        k += 1;
    }
    proof {
        assert(sargs.take(sargs.len() as int) =~= sargs);
    }
    ids
}

/// The state of the edit-argument walk: still collecting identifiers,
/// or collecting replacement text.
pub open spec fn edit_args_rec(
    args: Seq<Seq<char>>,
    i: int,
    parsing_ids: bool,
    ids: Seq<u8>,
    parts: Seq<Seq<char>>,
) -> (Seq<u8>, Seq<Seq<char>>)
    decreases args.len() - i,
    when 0 <= i
{
    if i >= args.len() {
        (ids, parts)
    } else {
        let a = args[i];
        if a == "-d"@ || a == "--date"@ {
            if i + 1 < args.len() && !(args[i + 1].len() > 0 && args[i + 1][0] == '-') {
                edit_args_rec(args, i + 2, parsing_ids, ids, parts)
            } else {
                edit_args_rec(args, i + 1, parsing_ids, ids, parts)
            }
        } else if parsing_ids {
            let t = trim_spec(a);
            if contains_char(t, ',') {
                let new_ids = ids_of_parts(split_spec(t, ','));
                if new_ids.len() > 0 {
                    edit_args_rec(args, i + 1, true, ids + new_ids, parts)
                } else {
                    edit_args_rec(args, i + 1, false, ids, parts.push(a))
                }
            } else if piece_id(a) is Some {
                edit_args_rec(args, i + 1, true, ids.push(piece_id(a)->0), parts)
            } else {
                edit_args_rec(args, i + 1, false, ids, parts.push(a))
            }
        } else {
            edit_args_rec(args, i + 1, false, ids, parts.push(a))
        }
    }
}

/// What the edit arguments denote: identifiers up to the first token
/// that is no identifier, the rest as replacement text, with the date
/// flag and its value skipped wherever they stand.
pub open spec fn edit_args_spec(args: Seq<Seq<char>>) -> (Seq<u8>, Seq<Seq<char>>) {
    edit_args_rec(args, 0, true, Seq::empty(), Seq::empty())
}

/// Splits the edit command's free-form arguments into identifiers and
/// replacement text; no text yields no replacement at all.
pub fn parse_edit_args(args: Vec<String>) -> (r: (Vec<u8>, Option<Vec<String>>))
    ensures
        r.0@ == edit_args_spec(args@.map_values(|a: String| a@)).0,
        r.1 is Some <==> edit_args_spec(args@.map_values(|a: String| a@)).1.len() > 0,
        r.1 matches Some(parts) ==> parts@.map_values(|p: String| p@) == edit_args_spec(
            args@.map_values(|a: String| a@),
        ).1,
{
    let ghost sargs = args@.map_values(|a: String| a@);
    let mut ids: Vec<u8> = Vec::new();
    let mut parts: Vec<String> = Vec::new();
    let mut parsing_ids = true;
    let mut i: usize = 0;
    proof {
        assert(ids@ =~= Seq::<u8>::empty());
        assert(parts@.map_values(|p: String| p@) =~= Seq::<Seq<char>>::empty());
    }
    while i < args.len()
        invariant
            i <= args@.len(),
            sargs == args@.map_values(|a: String| a@),
            edit_args_spec(sargs) == edit_args_rec(
                sargs,
                i as int,
                parsing_ids,
                ids@,
                parts@.map_values(|p: String| p@),
            ),
        decreases args@.len() - i,
    {
        let a = &args[i];
        if str_eq(a.as_str(), "-d") || str_eq(a.as_str(), "--date") {
            let mut skip_two = false;
            if i + 1 < args.len() {
                let nxt = str_chars(args[i + 1].as_str());
                if !(nxt.len() > 0 && nxt[0] == '-') {
                    skip_two = true;
                }
                proof {
                    assert(nxt@ == sargs[i + 1]);
                }
            }
            if skip_two {
                i = i + 2;
            } else {
                i = i + 1;
            }
        } else if parsing_ids {
            let v = str_chars(a.as_str());
            let t = trim_chars(v.as_slice());
            proof {
                assert(v@ == sargs[i as int]);
            }
            if has_comma(t.as_slice()) {
                let new_ids = parse_comma_pieces(t.as_slice());
                if new_ids.len() > 0 {
                    crate::text::append_u8(&mut ids, new_ids.as_slice());
                } else {
                    parsing_ids = false;
                    let ghost prevp = parts@;
                    parts.push(clone_string(a));
                    proof {
                        assert(parts@.map_values(|p: String| p@) =~= prevp.map_values(
                            |p: String| p@,
                        ).push(sargs[i as int]));
                    }
                }
                i = i + 1;
            } else {
                let mut pushed = false;
                if t.len() > 0 {
                    match parse_u8_chars(t.as_slice()) {
                        Some(idv) => {
                            ids.push(idv);
                            pushed = true;
                        },
                        None => {},
                    }
                }
                if !pushed {
                    parsing_ids = false;
                    let ghost prevp = parts@;
                    parts.push(clone_string(a));
                    proof {
                        assert(parts@.map_values(|p: String| p@) =~= prevp.map_values(
                            |p: String| p@,
                        ).push(sargs[i as int]));
                    }
                }
                i = i + 1;
            }
        } else {
            let ghost prevp = parts@;
            parts.push(clone_string(a));
            proof {
                assert(parts@.map_values(|p: String| p@) =~= prevp.map_values(
                    |p: String| p@,
                ).push(sargs[i as int]));
            }
            i = i + 1;
        }
    }
    if parts.len() == 0 {
        (ids, None)
    } else {
        (ids, Some(parts))
    }
}

/// A copy of a string.
fn clone_string(s: &String) -> (r: String)
    ensures
        r@ == s@,
{
    s.clone()
}

} // verus!
