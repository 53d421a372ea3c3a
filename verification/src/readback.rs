//! Reading the rendered document back.
//!
//! `read_back` parses the pretty-printed JSON the renderer produces: it
//! splits the text into lines, reads the array brackets, the object braces
//! and the `"key": "value"` pair lines, and undoes the string escaping.
//! The round-trip law at the end proves that reading a rendered document
//! back yields exactly one object per data row, with the header fields as
//! keys and the row's own fields as values.

use vstd::prelude::*;
use crate::parse::{parse_csv_spec, QUOTE, LF};
use crate::render::{
    escape, escape_byte, hex_digit, obj_bytes, pair_bytes, pair_count, pairs_from,
    render_json_spec, row_pairs, body_from, BACKSLASH, COLON, COMMA, LBRACE, LBRACK, RBRACE,
    RBRACK, SPACE,
};
use crate::laws::document_objects;
use crate::convert::convert_spec;

verus! {

/// The value of a hexadecimal digit byte, or an out-of-range marker for
/// any byte that is no such digit.
pub open spec fn hex_val(c: u8) -> u8 {
    if 0x30 <= c && c <= 0x39 {
        (c - 0x30) as u8
    } else if 0x61 <= c && c <= 0x66 {
        (c - 0x57) as u8
    } else {
        0xff
    }
}

/// Puts one byte in front of a decoded string body, keeping its tail.
pub open spec fn cons_str(b: u8, r: Option<(Seq<u8>, Seq<u8>)>) -> Option<(Seq<u8>, Seq<u8>)> {
    match r {
        Some(p) => Some((seq![b] + p.0, p.1)),
        None => None,
    }
}

/// Reads an escaped JSON string body up to its unescaped closing quote:
/// the decoded bytes and what follows the quote.
pub open spec fn read_str(s: Seq<u8>) -> Option<(Seq<u8>, Seq<u8>)>
    decreases s.len(),
{
    if s.len() == 0 {
        None
    } else if s[0] == QUOTE {
        Some((seq![], s.skip(1)))
    } else if s[0] == BACKSLASH {
        if s.len() < 2 {
            None
        } else {
            let c = s[1];
            if c == QUOTE {
                cons_str(QUOTE, read_str(s.skip(2)))
            } else if c == BACKSLASH {
                cons_str(BACKSLASH, read_str(s.skip(2)))
            } else if c == 0x62 {
                cons_str(0x08, read_str(s.skip(2)))
            } else if c == 0x74 {
                cons_str(0x09, read_str(s.skip(2)))
            } else if c == 0x6e {
                cons_str(0x0a, read_str(s.skip(2)))
            } else if c == 0x66 {
                cons_str(0x0c, read_str(s.skip(2)))
            } else if c == 0x72 {
                cons_str(0x0d, read_str(s.skip(2)))
            } else if c == 0x75 {
                if s.len() < 6 {
                    None
                } else if s[2] == 0x30 && s[3] == 0x30 && hex_val(s[4]) < 16 && hex_val(s[5])
                    < 16 {
                    cons_str((hex_val(s[4]) * 16 + hex_val(s[5])) as u8, read_str(s.skip(6)))
                } else {
                    None
                }
            } else {
                None
            }
        }
    } else {
        cons_str(s[0], read_str(s.skip(1)))
    }
}

/// One pair line: four spaces, `"key": "value"`, and perhaps a trailing
/// comma; yields the decoded pair and whether the comma was there.
pub open spec fn parse_pair_line(line: Seq<u8>) -> Option<((Seq<u8>, Seq<u8>), bool)> {
    if line.len() >= 5 && line[0] == SPACE && line[1] == SPACE && line[2] == SPACE && line[3]
        == SPACE && line[4] == QUOTE {
        match read_str(line.skip(5)) {
            Some(kp) => if kp.1.len() >= 3 && kp.1[0] == COLON && kp.1[1] == SPACE && kp.1[2]
                == QUOTE {
                match read_str(kp.1.skip(3)) {
                    Some(vp) => if vp.1.len() == 0 {
                        Some(((kp.0, vp.0), false))
                    } else if vp.1 == seq![COMMA] {
                        Some(((kp.0, vp.0), true))
                    } else {
                        None
                    },
                    None => None,
                }
            } else {
                None
            },
            None => None,
        }
    } else {
        None
    }
}

/// The text split at every line feed.
pub open spec fn split_lf(s: Seq<u8>) -> Seq<Seq<u8>>
    decreases s.len(),
{
    if s.len() == 0 {
        seq![seq![]]
    } else if s[0] == LF {
        seq![seq![]] + split_lf(s.skip(1))
    } else {
        let rest = split_lf(s.skip(1));
        seq![seq![s[0]] + rest[0]] + rest.skip(1)
    }
}

/// `  {`
pub open spec fn obj_open_line() -> Seq<u8> {
    seq![SPACE, SPACE, LBRACE]
}

/// `  }`
pub open spec fn obj_close_line() -> Seq<u8> {
    seq![SPACE, SPACE, RBRACE]
}

/// `  },`
pub open spec fn obj_close_comma_line() -> Seq<u8> {
    seq![SPACE, SPACE, RBRACE, COMMA]
}

/// The pair lines of one object, up to its closing line: the decoded
/// pairs, in order, and the lines that follow. A pair line with a trailing
/// comma announces another pair.
pub open spec fn parse_obj_lines(lines: Seq<Seq<u8>>) -> Option<
    (Seq<(Seq<u8>, Seq<u8>)>, Seq<Seq<u8>>),
>
    decreases lines.len(),
{
    if lines.len() == 0 {
        None
    } else {
        match parse_pair_line(lines[0]) {
            Some(pb) => if pb.1 {
                match parse_obj_lines(lines.skip(1)) {
                    Some(pr) => Some((seq![pb.0] + pr.0, pr.1)),
                    None => None,
                }
            } else {
                Some((seq![pb.0], lines.skip(1)))
            },
            None => None,
        }
    }
}

/// The objects of the array, one after the other: each opens with `  {`,
/// holds its pair lines, and closes with `  },` when another follows or
/// with `  }` right before the final `]` line.
pub open spec fn parse_objects(lines: Seq<Seq<u8>>) -> Option<Seq<Seq<(Seq<u8>, Seq<u8>)>>>
    decreases lines.len(),
    via parse_objects_dec
{
    if lines.len() == 0 {
        None
    } else if lines[0] == obj_open_line() {
        match parse_obj_lines(lines.skip(1)) {
            Some(pr) => if pr.1.len() >= 1 && pr.1[0] == obj_close_comma_line() {
                match parse_objects(pr.1.skip(1)) {
                    Some(objs) => Some(seq![pr.0] + objs),
                    None => None,
                }
            } else if pr.1.len() >= 1 && pr.1[0] == obj_close_line() {
                if pr.1.skip(1) == seq![seq![RBRACK]] {
                    Some(seq![pr.0])
                } else {
                    None
                }
            } else {
                None
            },
            None => None,
        }
    } else {
        None
    }
}

/// What a successful read of pair lines leaves is strictly shorter than
/// what it was given: at least one line is consumed.
pub proof fn lemma_parse_obj_lines_shrinks(lines: Seq<Seq<u8>>)
    requires
        parse_obj_lines(lines) is Some,
    ensures
        (parse_obj_lines(lines)->Some_0).1.len() < lines.len(),
    decreases lines.len(),
{
    if lines.len() == 0 {
    } else {
        match parse_pair_line(lines[0]) {
            Some(pb) => {
                if pb.1 {
                    lemma_parse_obj_lines_shrinks(lines.skip(1));
                } else {
                }
            },
            None => {},
        }
    }
}

#[via_fn]
proof fn parse_objects_dec(lines: Seq<Seq<u8>>) {
    if lines.len() > 0 && lines[0] == obj_open_line() {
        if parse_obj_lines(lines.skip(1)) is Some {
            lemma_parse_obj_lines_shrinks(lines.skip(1));
        }
    }
}

/// Reads a rendered document back into its objects: the empty array, or
/// the array's lines with one `[` line, the objects, and one `]` line.
pub open spec fn read_back(s: Seq<u8>) -> Option<Seq<Seq<(Seq<u8>, Seq<u8>)>>> {
    if s == seq![LBRACK, RBRACK] {
        Some(seq![])
    } else {
        let lines = split_lf(s);
        if lines.len() >= 1 && lines[0] == seq![LBRACK] {
            parse_objects(lines.skip(1))
        } else {
            None
        }
    }
}

/// Reading an escaped body followed by a closing quote yields the original
/// bytes and leaves exactly what followed the quote.
pub proof fn lemma_read_str_escape(k: Seq<u8>, rest: Seq<u8>)
    ensures
        read_str(escape(k) + seq![QUOTE] + rest) == Some::<(Seq<u8>, Seq<u8>)>((k, rest)),
    decreases k.len(),
{
    if k.len() == 0 {
        let w = escape(k) + seq![QUOTE] + rest;
        assert(w =~= seq![QUOTE] + rest);
        assert(w[0] == QUOTE);
        assert(w.skip(1) =~= rest);
    } else {
        let b = k[0];
        let kr = k.skip(1);
        lemma_read_str_escape(kr, rest);
        let t = escape(kr) + seq![QUOTE] + rest;
        let e = escape_byte(b);
        let w = escape(k) + seq![QUOTE] + rest;
        assert(escape(k) == e + escape(kr));
        assert(w =~= e + t);
        if b == QUOTE || b == BACKSLASH || b == 0x08 || b == 0x09 || b == 0x0a || b == 0x0c || b
            == 0x0d {
            assert(w[0] == BACKSLASH && w[1] == e[1] && w.len() >= 2);
            assert(w.skip(2) =~= t);
            assert(read_str(w) == cons_str(b, read_str(t)));
        } else if b < 0x20 {
            assert(w[0] == BACKSLASH && w[1] == 0x75 && w[2] == 0x30 && w[3] == 0x30);
            assert(w[4] == hex_digit(b / 16) && w[5] == hex_digit(b % 16));
            assert(b / 16 < 2 && b % 16 < 16);
            assert(hex_val(hex_digit(b / 16)) == b / 16);
            assert(hex_val(hex_digit(b % 16)) == b % 16);
            assert(b / 16 * 16 + b % 16 == b);
            assert(w.skip(6) =~= t);
            assert(read_str(w) == cons_str(b, read_str(t)));
        } else {
            assert(w[0] == b && w[0] != BACKSLASH && w[0] != QUOTE);
            assert(w.skip(1) =~= t);
            assert(read_str(w) == cons_str(b, read_str(t)));
        }
        assert(seq![b] + kr =~= k);
    }
}

/// A rendered pair line reads back as its own pair, with or without the
/// trailing comma.
pub proof fn lemma_parse_pair_line(k: Seq<u8>, v: Seq<u8>, comma: bool)
    ensures
        parse_pair_line(pair_bytes(k, v) + if comma {
            seq![COMMA]
        } else {
            Seq::<u8>::empty()
        }) == Some::<((Seq<u8>, Seq<u8>), bool)>(((k, v), comma)),
{
    let tail: Seq<u8> = if comma {
        seq![COMMA]
    } else {
        seq![]
    };
    let line = pair_bytes(k, v) + tail;
    assert(line[0] == SPACE && line[1] == SPACE && line[2] == SPACE && line[3] == SPACE && line[4]
        == QUOTE);
    let rest1 = seq![QUOTE, COLON, SPACE, QUOTE].skip(1) + escape(v) + seq![QUOTE] + tail;
    assert(line.skip(5) =~= escape(k) + seq![QUOTE] + (seq![COLON, SPACE, QUOTE] + (escape(v)
        + seq![QUOTE] + tail)));
    lemma_read_str_escape(k, seq![COLON, SPACE, QUOTE] + (escape(v) + seq![QUOTE] + tail));
    let r1 = seq![COLON, SPACE, QUOTE] + (escape(v) + seq![QUOTE] + tail);
    assert(r1[0] == COLON && r1[1] == SPACE && r1[2] == QUOTE);
    assert(r1.skip(3) =~= escape(v) + seq![QUOTE] + tail);
    lemma_read_str_escape(v, tail);
    if comma {
        assert(tail == seq![COMMA]);
    } else {
        assert(tail.len() == 0);
    }
}

/// No byte of an escaped string body is a line feed.
pub proof fn lemma_escape_no_lf(s: Seq<u8>)
    ensures
        forall|i: int| 0 <= i < escape(s).len() ==> escape(s)[i] != LF,
    decreases s.len(),
{
    if s.len() == 0 {
    } else {
        lemma_escape_no_lf(s.skip(1));
        assert(escape(s) == escape_byte(s[0]) + escape(s.skip(1)));
        assert forall|i: int| 0 <= i < escape(s).len() implies escape(s)[i] != LF by {
            let e = escape_byte(s[0]);
            if i < e.len() {
                assert(escape(s)[i] == e[i]);
            } else {
                assert(escape(s)[i] == escape(s.skip(1))[i - e.len()]);
            }
        }
    }
}

/// No byte of a pair line is a line feed.
pub proof fn lemma_pair_bytes_no_lf(k: Seq<u8>, v: Seq<u8>)
    ensures
        forall|i: int| 0 <= i < pair_bytes(k, v).len() ==> pair_bytes(k, v)[i] != LF,
{
    lemma_escape_no_lf(k);
    lemma_escape_no_lf(v);
    let p = pair_bytes(k, v);
    assert forall|i: int| 0 <= i < p.len() implies p[i] != LF by {
        if i < 5 {
        } else if i < 5 + escape(k).len() {
            assert(p[i] == escape(k)[i - 5]);
        } else if i < 9 + escape(k).len() {
        } else if i < 9 + escape(k).len() + escape(v).len() {
            assert(p[i] == escape(v)[i - 9 - escape(k).len()]);
        } else {
        }
    }
}

/// A split always yields at least one line.
pub proof fn lemma_split_lf_len(s: Seq<u8>)
    ensures
        split_lf(s).len() >= 1,
    decreases s.len(),
{
    if s.len() == 0 {
    } else if s[0] == LF {
    } else {
        lemma_split_lf_len(s.skip(1));
    }
}

/// A text without line feeds is one line.
pub proof fn lemma_split_lf_single(s: Seq<u8>)
    requires
        forall|i: int| 0 <= i < s.len() ==> s[i] != LF,
    ensures
        split_lf(s) == seq![s],
    decreases s.len(),
{
    if s.len() == 0 {
        assert(split_lf(s) =~~= seq![s]);
    } else {
        assert forall|i: int| 0 <= i < s.skip(1).len() implies s.skip(1)[i] != LF by {
            assert(s.skip(1)[i] == s[i + 1]);
        }
        lemma_split_lf_single(s.skip(1));
        assert(seq![s[0]] + s.skip(1) =~= s);
        assert(split_lf(s) =~~= seq![s]);
    }
}

/// Splitting at a line feed between two texts splits each on its own.
pub proof fn lemma_split_lf_concat(x: Seq<u8>, y: Seq<u8>)
    ensures
        split_lf(x + seq![LF] + y) == split_lf(x) + split_lf(y),
    decreases x.len(),
{
    let w = x + seq![LF] + y;
    if x.len() == 0 {
        assert(w =~= seq![LF] + y);
        assert(w[0] == LF);
        assert(w.skip(1) =~= y);
        assert(split_lf(x) + split_lf(y) =~= seq![Seq::<u8>::empty()] + split_lf(y));
        assert(split_lf(w) =~= split_lf(x) + split_lf(y));
    } else if x[0] == LF {
        assert(w[0] == LF);
        assert(w.skip(1) =~= x.skip(1) + seq![LF] + y);
        lemma_split_lf_concat(x.skip(1), y);
        assert(split_lf(w) =~= (seq![Seq::<u8>::empty()] + split_lf(x.skip(1))) + split_lf(y));
    } else {
        assert(w[0] == x[0] && w[0] != LF);
        assert(w.skip(1) =~= x.skip(1) + seq![LF] + y);
        lemma_split_lf_concat(x.skip(1), y);
        lemma_split_lf_len(x.skip(1));
        let a = split_lf(x.skip(1));
        let b = split_lf(y);
        assert((a + b)[0] == a[0]);
        assert((a + b).skip(1) =~= a.skip(1) + b);
        assert(split_lf(w) =~= (seq![seq![x[0]] + a[0]] + a.skip(1)) + b);
        assert(split_lf(x) == seq![seq![x[0]] + a[0]] + a.skip(1));
    }
}

/// The pair lines of one object from index `j` on: every line but the
/// last carries its separating comma.
pub open spec fn pair_lines_from(ps: Seq<(Seq<u8>, Seq<u8>)>, j: int) -> Seq<Seq<u8>>
    decreases ps.len() - j,
{
    if j < 0 || j >= ps.len() {
        seq![]
    } else if j == ps.len() - 1 {
        seq![pair_bytes(ps[j].0, ps[j].1)]
    } else {
        seq![pair_bytes(ps[j].0, ps[j].1) + seq![COMMA]] + pair_lines_from(ps, j + 1)
    }
}

/// Splitting a rendered pair block yields exactly its pair lines.
pub proof fn lemma_split_pairs(ps: Seq<(Seq<u8>, Seq<u8>)>, j: int)
    requires
        0 <= j < ps.len(),
    ensures
        split_lf(pairs_from(ps, j)) == pair_lines_from(ps, j),
    decreases ps.len() - j,
{
    let pb = pair_bytes(ps[j].0, ps[j].1);
    lemma_pair_bytes_no_lf(ps[j].0, ps[j].1);
    if j == ps.len() - 1 {
        lemma_split_lf_single(pb);
    } else {
        lemma_split_pairs(ps, j + 1);
        assert(pairs_from(ps, j) =~= (pb + seq![COMMA]) + seq![LF] + pairs_from(ps, j + 1));
        lemma_split_lf_concat(pb + seq![COMMA], pairs_from(ps, j + 1));
        assert forall|i: int| 0 <= i < (pb + seq![COMMA]).len() implies (pb + seq![COMMA])[i]
            != LF by {
            if i < pb.len() {
                assert((pb + seq![COMMA])[i] == pb[i]);
            } else {
                assert((pb + seq![COMMA])[i] == COMMA);
            }
        }
        lemma_split_lf_single(pb + seq![COMMA]);
    }
}

/// The lines of one object: `  {`, its pair lines, and its closing line,
/// with the separating comma when another object follows.
pub open spec fn obj_lines(ps: Seq<(Seq<u8>, Seq<u8>)>, comma: bool) -> Seq<Seq<u8>> {
    seq![obj_open_line()] + pair_lines_from(ps, 0) + seq![
        if comma {
            obj_close_comma_line()
        } else {
            obj_close_line()
        },
    ]
}

/// Splitting one rendered object yields its lines.
pub proof fn lemma_split_obj(ps: Seq<(Seq<u8>, Seq<u8>)>, comma: bool)
    requires
        ps.len() >= 1,
    ensures
        split_lf(
            obj_bytes(ps) + if comma {
                seq![COMMA]
            } else {
                Seq::<u8>::empty()
            },
        ) == obj_lines(ps, comma),
{
    let tail: Seq<u8> = if comma {
        seq![COMMA]
    } else {
        seq![]
    };
    let close: Seq<u8> = if comma {
        obj_close_comma_line()
    } else {
        obj_close_line()
    };
    let w = obj_bytes(ps) + tail;
    assert(w =~= obj_open_line() + seq![LF] + (pairs_from(ps, 0) + seq![LF] + close));
    lemma_split_lf_concat(obj_open_line(), pairs_from(ps, 0) + seq![LF] + close);
    lemma_split_lf_concat(pairs_from(ps, 0), close);
    assert(forall|i: int|
        0 <= i < obj_open_line().len() ==> obj_open_line()[i] != LF);
    lemma_split_lf_single(obj_open_line());
    assert(forall|i: int| 0 <= i < close.len() ==> close[i] != LF);
    lemma_split_lf_single(close);
    lemma_split_pairs(ps, 0);
    assert(split_lf(w) =~= obj_lines(ps, comma));
}

/// The lines of the objects of rows `r` and onward.
pub open spec fn body_lines_from(header: Seq<Seq<u8>>, rows: Seq<Seq<Seq<u8>>>, r: int) -> Seq<
    Seq<u8>,
>
    decreases rows.len() - r,
{
    if r < 0 || r >= rows.len() {
        seq![]
    } else if r == rows.len() - 1 {
        obj_lines(row_pairs(header, rows[r]), false)
    } else {
        obj_lines(row_pairs(header, rows[r]), true) + body_lines_from(header, rows, r + 1)
    }
}

/// Splitting the rendered array body yields the objects' lines.
pub proof fn lemma_split_body(header: Seq<Seq<u8>>, rows: Seq<Seq<Seq<u8>>>, r: int)
    requires
        0 <= r < rows.len(),
        forall|i: int| r <= i < rows.len() ==> pair_count(header, rows[i]) >= 1,
    ensures
        split_lf(body_from(header, rows, r)) == body_lines_from(header, rows, r),
    decreases rows.len() - r,
{
    let ps = row_pairs(header, rows[r]);
    assert(ps.len() >= 1);
    if r == rows.len() - 1 {
        lemma_split_obj(ps, false);
        assert(obj_bytes(ps) + Seq::<u8>::empty() =~= obj_bytes(ps));
    } else {
        lemma_split_body(header, rows, r + 1);
        assert(body_from(header, rows, r) =~= (obj_bytes(ps) + seq![COMMA]) + seq![LF]
            + body_from(header, rows, r + 1));
        lemma_split_lf_concat(obj_bytes(ps) + seq![COMMA], body_from(header, rows, r + 1));
        lemma_split_obj(ps, true);
    }
}

/// Pair lines read back as their own pairs, leaving the following lines.
pub proof fn lemma_parse_obj_lines_model(ps: Seq<(Seq<u8>, Seq<u8>)>, j: int, rest: Seq<Seq<u8>>)
    requires
        0 <= j < ps.len(),
    ensures
        parse_obj_lines(pair_lines_from(ps, j) + rest) == Some::<
            (Seq<(Seq<u8>, Seq<u8>)>, Seq<Seq<u8>>),
        >((ps.skip(j), rest)),
    decreases ps.len() - j,
{
    let w = pair_lines_from(ps, j) + rest;
    if j == ps.len() - 1 {
        assert(w[0] == pair_bytes(ps[j].0, ps[j].1));
        lemma_parse_pair_line(ps[j].0, ps[j].1, false);
        assert(pair_bytes(ps[j].0, ps[j].1) + Seq::<u8>::empty() =~= pair_bytes(
            ps[j].0,
            ps[j].1,
        ));
        assert(w.skip(1) =~= rest);
        assert(seq![ps[j]] =~= ps.skip(j));
    } else {
        lemma_parse_obj_lines_model(ps, j + 1, rest);
        assert(w[0] == pair_bytes(ps[j].0, ps[j].1) + seq![COMMA]);
        lemma_parse_pair_line(ps[j].0, ps[j].1, true);
        assert(w.skip(1) =~= pair_lines_from(ps, j + 1) + rest);
        assert(seq![ps[j]] + ps.skip(j + 1) =~= ps.skip(j));
    }
}

/// Object lines followed by the final `]` line read back as the document's
/// objects of rows `r` and onward.
pub proof fn lemma_parse_objects_model(header: Seq<Seq<u8>>, rows: Seq<Seq<Seq<u8>>>, r: int)
    requires
        0 <= r < rows.len(),
        forall|i: int| r <= i < rows.len() ==> pair_count(header, rows[i]) >= 1,
    ensures
        parse_objects(body_lines_from(header, rows, r) + seq![seq![RBRACK]]) == Some::<
            Seq<Seq<(Seq<u8>, Seq<u8>)>>,
        >(document_objects(header, rows).skip(r)),
    decreases rows.len() - r,
{
    let ps = row_pairs(header, rows[r]);
    assert(ps.len() >= 1);
    let w = body_lines_from(header, rows, r) + seq![seq![RBRACK]];
    if r == rows.len() - 1 {
        assert(w[0] == obj_open_line());
        let rest = seq![obj_close_line()] + seq![seq![RBRACK]];
        assert(w.skip(1) =~= pair_lines_from(ps, 0) + rest);
        lemma_parse_obj_lines_model(ps, 0, rest);
        assert(rest[0] == obj_close_line());
        assert(rest[0] != obj_close_comma_line());
        assert(rest.skip(1) =~= seq![seq![RBRACK]]);
        assert(ps.skip(0) =~= ps);
        assert(document_objects(header, rows).skip(r) =~= seq![ps]);
    } else {
        lemma_parse_objects_model(header, rows, r + 1);
        assert(w[0] == obj_open_line());
        let rest = seq![obj_close_comma_line()] + (body_lines_from(header, rows, r + 1) + seq![
            seq![RBRACK],
        ]);
        assert(w.skip(1) =~= pair_lines_from(ps, 0) + rest);
        lemma_parse_obj_lines_model(ps, 0, rest);
        assert(rest[0] == obj_close_comma_line());
        assert(rest.skip(1) =~= body_lines_from(header, rows, r + 1) + seq![seq![RBRACK]]);
        assert(ps.skip(0) =~= ps);
        assert(seq![ps] + document_objects(header, rows).skip(r + 1) =~= document_objects(
            header,
            rows,
        ).skip(r));
    }
}

/// Law (round trip of the rendering): for any header and rows in which
/// every row object has at least one pair, reading the rendered document
/// back yields exactly the document's objects: one per data row, keys from
/// the header, values from the row, in order.
pub proof fn lemma_read_back_render(header: Seq<Seq<u8>>, rows: Seq<Seq<Seq<u8>>>)
    requires
        forall|i: int| 0 <= i < rows.len() ==> pair_count(header, rows[i]) >= 1,
    ensures
        read_back(render_json_spec(header, rows)) == Some::<Seq<Seq<(Seq<u8>, Seq<u8>)>>>(
            document_objects(header, rows),
        ),
{
    if rows.len() == 0 {
        assert(document_objects(header, rows) =~= Seq::<Seq<(Seq<u8>, Seq<u8>)>>::empty());
    } else {
        let w = render_json_spec(header, rows);
        assert(w.len() == 4 + body_from(header, rows, 0).len());
        assert(w != seq![LBRACK, RBRACK]);
        assert(w =~= seq![LBRACK] + seq![LF] + (body_from(header, rows, 0) + seq![LF] + seq![
            RBRACK,
        ]));
        lemma_split_lf_concat(seq![LBRACK], body_from(header, rows, 0) + seq![LF] + seq![RBRACK]);
        lemma_split_lf_concat(body_from(header, rows, 0), seq![RBRACK]);
        assert(forall|i: int| 0 <= i < seq![LBRACK].len() ==> seq![LBRACK][i] != LF);
        lemma_split_lf_single(seq![LBRACK]);
        assert(forall|i: int| 0 <= i < seq![RBRACK].len() ==> seq![RBRACK][i] != LF);
        lemma_split_lf_single(seq![RBRACK]);
        lemma_split_body(header, rows, 0);
        let lines = split_lf(w);
        assert(lines =~= seq![seq![LBRACK]] + (body_lines_from(header, rows, 0) + seq![seq![
            RBRACK,
        ]]));
        assert(lines[0] == seq![LBRACK]);
        assert(lines.skip(1) =~= body_lines_from(header, rows, 0) + seq![seq![RBRACK]]);
        lemma_parse_objects_model(header, rows, 0);
        assert(document_objects(header, rows).skip(0) =~= document_objects(header, rows));
    }
}

/// Law (round trip through the conversion): for any input the conversion
/// accepts, reading the produced JSON back yields one object per data row,
/// whose `j`-th key is the header's `j`-th field and whose `j`-th value is
/// the row's `j`-th field.
pub proof fn lemma_convert_read_back(s: Seq<u8>, d: u8)
    requires
        convert_spec(s, d) is Ok,
    ensures
        ({
            let records = parse_csv_spec(s, d)->Ok_0;
            read_back(convert_spec(s, d)->Ok_0) == Some::<Seq<Seq<(Seq<u8>, Seq<u8>)>>>(
                document_objects(records[0], records.skip(1)),
            )
        }),
{
    crate::parse::lemma_parse_records_nonempty(s, d);
    let records = parse_csv_spec(s, d)->Ok_0;
    let header = records[0];
    let rows = records.skip(1);
    assert forall|i: int| 0 <= i < rows.len() implies pair_count(header, rows[i]) >= 1 by {
        assert(rows[i] == records[i + 1]);
        assert(records[i + 1].len() >= 1);
        assert(records[0].len() >= 1);
    }
    lemma_read_back_render(header, rows);
}

/// Law (shape of the output): for any input the conversion accepts, the
/// produced document reads back as exactly one object per data row, and
/// the object of row `i` has exactly `min(header width, width of row i)`
/// pairs.
pub proof fn lemma_convert_output_shape(s: Seq<u8>, d: u8)
    requires
        convert_spec(s, d) is Ok,
    ensures
        ({
            let records = parse_csv_spec(s, d)->Ok_0;
            let objs = read_back(convert_spec(s, d)->Ok_0);
            &&& objs is Some
            &&& objs->Some_0.len() == records.len() - 1
            &&& forall|i: int|
                0 <= i < records.len() - 1 ==> (#[trigger] objs->Some_0[i]).len() == pair_count(
                    records[0],
                    records[i + 1],
                )
        }),
{
    lemma_convert_read_back(s, d);
    let records = parse_csv_spec(s, d)->Ok_0;
    let objs = document_objects(records[0], records.skip(1));
    crate::laws::lemma_output_shape(records[0], records.skip(1));
    assert forall|i: int| 0 <= i < records.len() - 1 implies (#[trigger] objs[i]).len()
        == pair_count(records[0], records[i + 1]) by {
        assert(records.skip(1)[i] == records[i + 1]);
    }
}

} // verus!
