//! Pretty-printed JSON rendering of the row objects.
//!
//! The document is a JSON array, one element per data row. Each element is
//! an object whose keys are the header fields and whose values are the
//! row's fields, paired positionally and truncated to the shorter of the
//! two (zip semantics). All values are JSON strings. The layout uses
//! two-space indentation, one pair per line.

use vstd::prelude::*;
use crate::parse::{QUOTE, LF};

verus! {

/// `[`
pub const LBRACK: u8 = 0x5b;
/// `]`
pub const RBRACK: u8 = 0x5d;
/// `{`
pub const LBRACE: u8 = 0x7b;
/// `}`
pub const RBRACE: u8 = 0x7d;
/// `,`
pub const COMMA: u8 = 0x2c;
/// `:`
pub const COLON: u8 = 0x3a;
/// ` `
pub const SPACE: u8 = 0x20;
/// `\`
pub const BACKSLASH: u8 = 0x5c;

/// The lowercase hexadecimal digit for `n`.
pub open spec fn hex_digit(n: u8) -> u8 {
    if n < 10 {
        (0x30 + n) as u8
    } else {
        (0x57 + n) as u8
    }
}

/// How one byte appears inside a JSON string literal: quotes and
/// backslashes are escaped, control bytes use the short escapes where JSON
/// has them and `\u00..` otherwise, and every other byte stands as itself.
pub open spec fn escape_byte(b: u8) -> Seq<u8> {
    if b == QUOTE {
        seq![BACKSLASH, QUOTE]
    } else if b == BACKSLASH {
        seq![BACKSLASH, BACKSLASH]
    } else if b == 0x08 {
        seq![BACKSLASH, 0x62]
    } else if b == 0x09 {
        seq![BACKSLASH, 0x74]
    } else if b == 0x0a {
        seq![BACKSLASH, 0x6e]
    } else if b == 0x0c {
        seq![BACKSLASH, 0x66]
    } else if b == 0x0d {
        seq![BACKSLASH, 0x72]
    } else if b < 0x20 {
        seq![BACKSLASH, 0x75, 0x30, 0x30, hex_digit(b / 16), hex_digit(b % 16)]
    } else {
        seq![b]
    }
}

/// The body of the JSON string literal for `s`: each byte escaped in turn.
pub open spec fn escape(s: Seq<u8>) -> Seq<u8>
    decreases s.len(),
{
    if s.len() == 0 {
        seq![]
    } else {
        escape_byte(s[0]) + escape(s.skip(1))
    }
}

/// How many key/value pairs a row object has: the shorter of the header
/// and the row (zip truncation).
pub open spec fn pair_count(header: Seq<Seq<u8>>, row: Seq<Seq<u8>>) -> nat {
    if header.len() <= row.len() {
        header.len()
    } else {
        row.len()
    }
}

/// The key/value pairs of one row object, in header order.
pub open spec fn row_pairs(header: Seq<Seq<u8>>, row: Seq<Seq<u8>>) -> Seq<(Seq<u8>, Seq<u8>)> {
    Seq::new(pair_count(header, row), |i: int| (header[i], row[i]))
}

/// One pair on its own line: four spaces, `"key": "value"`.
pub open spec fn pair_bytes(k: Seq<u8>, v: Seq<u8>) -> Seq<u8> {
    seq![SPACE, SPACE, SPACE, SPACE, QUOTE] + escape(k) + seq![QUOTE, COLON, SPACE, QUOTE]
        + escape(v) + seq![QUOTE]
}

/// The pair lines of an object from index `j` on, separated by `,\n`.
pub open spec fn pairs_from(ps: Seq<(Seq<u8>, Seq<u8>)>, j: int) -> Seq<u8>
    decreases ps.len() - j,
{
    if j < 0 || j >= ps.len() {
        seq![]
    } else if j == ps.len() - 1 {
        pair_bytes(ps[j].0, ps[j].1)
    } else {
        pair_bytes(ps[j].0, ps[j].1) + seq![COMMA, LF] + pairs_from(ps, j + 1)
    }
}

/// One row object, indented as an array element: `  {`, its pair lines,
/// and `  }`.
pub open spec fn obj_bytes(ps: Seq<(Seq<u8>, Seq<u8>)>) -> Seq<u8> {
    seq![SPACE, SPACE, LBRACE, LF] + pairs_from(ps, 0) + seq![LF, SPACE, SPACE, RBRACE]
}

/// The objects of rows `r` and onward, separated by `,\n`.
pub open spec fn body_from(header: Seq<Seq<u8>>, rows: Seq<Seq<Seq<u8>>>, r: int) -> Seq<u8>
    decreases rows.len() - r,
{
    if r < 0 || r >= rows.len() {
        seq![]
    } else if r == rows.len() - 1 {
        obj_bytes(row_pairs(header, rows[r]))
    } else {
        obj_bytes(row_pairs(header, rows[r])) + seq![COMMA, LF] + body_from(header, rows, r + 1)
    }
}

/// The whole document: `[]` when there are no data rows, else the objects
/// between `[` and `]`, one pair per line, in input row order.
pub open spec fn render_json_spec(header: Seq<Seq<u8>>, rows: Seq<Seq<Seq<u8>>>) -> Seq<u8> {
    if rows.len() == 0 {
        seq![LBRACK, RBRACK]
    } else {
        seq![LBRACK, LF] + body_from(header, rows, 0) + seq![LF, RBRACK]
    }
}

/// Appends the escape of one byte.
fn push_escaped_byte(out: &mut Vec<u8>, b: u8)
    ensures
        final(out)@ == old(out)@ + escape_byte(b),
{
    if b == QUOTE {
        out.push(BACKSLASH);
        out.push(QUOTE);
        proof {
            assert(out@ =~= old(out)@ + escape_byte(b));
        }
    } else if b == BACKSLASH {
        out.push(BACKSLASH);
        out.push(BACKSLASH);
        proof {
            assert(out@ =~= old(out)@ + escape_byte(b));
        }
    } else if b == 0x08 {
        out.push(BACKSLASH);
        out.push(0x62);
        proof {
            assert(out@ =~= old(out)@ + escape_byte(b));
        }
    } else if b == 0x09 {
        out.push(BACKSLASH);
        out.push(0x74);
        proof {
            assert(out@ =~= old(out)@ + escape_byte(b));
        }
    } else if b == 0x0a {
        out.push(BACKSLASH);
        out.push(0x6e);
        proof {
            assert(out@ =~= old(out)@ + escape_byte(b));
        }
    } else if b == 0x0c {
        out.push(BACKSLASH);
        out.push(0x66);
        proof {
            assert(out@ =~= old(out)@ + escape_byte(b));
        }
    } else if b == 0x0d {
        out.push(BACKSLASH);
        out.push(0x72);
        proof {
            assert(out@ =~= old(out)@ + escape_byte(b));
        }
    } else if b < 0x20 {
        let hi: u8 = b / 16;
        let lo: u8 = b % 16;
        let c1: u8 = if hi < 10 { 0x30 + hi } else { 0x57 + hi };
        let c2: u8 = if lo < 10 { 0x30 + lo } else { 0x57 + lo };
        out.push(BACKSLASH);
        out.push(0x75);
        out.push(0x30);
        out.push(0x30);
        out.push(c1);
        out.push(c2);
        proof {
            assert(c1 == hex_digit(b / 16));
            assert(c2 == hex_digit(b % 16));
            assert(out@ =~= old(out)@ + escape_byte(b));
        }
    } else {
        out.push(b);
        proof {
            assert(out@ =~= old(out)@ + escape_byte(b));
        }
    }
}

/// Appends the escaped body of the JSON string literal for `s`.
fn push_escaped(out: &mut Vec<u8>, s: &Vec<u8>)
    ensures
        final(out)@ == old(out)@ + escape(s@),
{
    let mut j: usize = 0;
    proof {
        assert(s@.skip(0int) =~= s@);
    }
    while j < s.len()
        invariant
            0 <= j <= s@.len(),
            s@.len() == s.len(),
            out@ + escape(s@.skip(j as int)) == old(out)@ + escape(s@),
        decreases s@.len() - j,
    {
        let ghost out0 = out@;
        push_escaped_byte(out, s[j]);
        proof {
            assert(s@.skip(j as int)[0] == s@[j as int]);
            assert(s@.skip(j as int).skip(1) =~= s@.skip(j as int + 1));
            assert(escape(s@.skip(j as int)) == escape_byte(s@[j as int]) + escape(
                s@.skip(j as int + 1),
            ));
            assert((out0 + escape_byte(s@[j as int])) + escape(s@.skip(j as int + 1)) =~= out0 + (
            escape_byte(s@[j as int]) + escape(s@.skip(j as int + 1))));
        }
        j = j + 1;
    }
    proof {
        assert(s@.skip(s@.len() as int) =~= Seq::<u8>::empty());
        assert(out@ + escape(s@.skip(s@.len() as int)) =~= out@);
    }
}

/// Appends one pair line.
fn push_pair(out: &mut Vec<u8>, k: &Vec<u8>, v: &Vec<u8>)
    ensures
        final(out)@ == old(out)@ + pair_bytes(k@, v@),
{
    out.push(SPACE);
    out.push(SPACE);
    out.push(SPACE);
    out.push(SPACE);
    out.push(QUOTE);
    push_escaped(out, k);
    out.push(QUOTE);
    out.push(COLON);
    out.push(SPACE);
    out.push(QUOTE);
    push_escaped(out, v);
    out.push(QUOTE);
    proof {
        assert(out@ =~= old(out)@ + pair_bytes(k@, v@));
    }
}

/// Appends one row object: keys from the header, values from the row,
/// truncated to the shorter of the two.
fn push_object(out: &mut Vec<u8>, header: &Vec<Vec<u8>>, row: &Vec<Vec<u8>>)
    ensures
        final(out)@ == old(out)@ + obj_bytes(row_pairs(header.deep_view(), row.deep_view())),
{
    let ghost ps = row_pairs(header.deep_view(), row.deep_view());
    out.push(SPACE);
    out.push(SPACE);
    out.push(LBRACE);
    out.push(LF);
    let ghost base = out@;
    let n: usize = if header.len() <= row.len() {
        header.len()
    } else {
        row.len()
    };
    proof {
        assert(ps.len() == n);
    }
    let mut j: usize = 0;
    while j < n
        invariant
            0 <= j <= n,
            n <= header@.len(),
            n <= row@.len(),
            ps == row_pairs(header.deep_view(), row.deep_view()),
            ps.len() == n,
            out@ + pairs_from(ps, j as int) == base + pairs_from(ps, 0),
        decreases n - j,
    {
        let ghost out0 = out@;
        push_pair(out, &header[j], &row[j]);
        proof {
            assert(ps[j as int].0 =~= header@[j as int]@);
            assert(ps[j as int].1 =~= row@[j as int]@);
        }
        if j < n - 1 {
            out.push(COMMA);
            out.push(LF);
            proof {
                assert(out@ =~= out0 + (pair_bytes(ps[j as int].0, ps[j as int].1) + seq![
                    COMMA,
                    LF,
                ]));
                assert(pairs_from(ps, j as int) == pair_bytes(ps[j as int].0, ps[j as int].1)
                    + seq![COMMA, LF] + pairs_from(ps, j as int + 1));
                assert(out@ + pairs_from(ps, j as int + 1) =~= out0 + pairs_from(ps, j as int));
            }
        } else {
            proof {
                assert(j == n - 1);
                assert(pairs_from(ps, j as int) == pair_bytes(ps[j as int].0, ps[j as int].1));
                assert(pairs_from(ps, j as int + 1) =~= Seq::<u8>::empty());
                assert(out@ + pairs_from(ps, j as int + 1) =~= out0 + pairs_from(ps, j as int));
            }
        }
        j = j + 1;
    }
    out.push(LF);
    out.push(SPACE);
    out.push(SPACE);
    out.push(RBRACE);
    proof {
        assert(pairs_from(ps, n as int) =~= Seq::<u8>::empty());
        assert(base + pairs_from(ps, n as int) =~= base);
        assert(out@ =~= old(out)@ + obj_bytes(ps));
    }
}

/// Renders the whole document for `header` and the data `rows`, exactly as
/// `render_json_spec` describes.
pub fn render_json(header: &Vec<Vec<u8>>, rows: &Vec<Vec<Vec<u8>>>) -> (out: Vec<u8>)
    ensures
        out@ == render_json_spec(header.deep_view(), rows.deep_view()),
{
    let ghost h = header.deep_view();
    let ghost rs = rows.deep_view();
    let mut out: Vec<u8> = Vec::new();
    if rows.len() == 0 {
        out.push(LBRACK);
        out.push(RBRACK);
        proof {
            assert(out@ =~= render_json_spec(h, rs));
        }
        return out;
    }
    out.push(LBRACK);
    out.push(LF);
    let ghost base = out@;
    let n: usize = rows.len();
    let mut r: usize = 0;
    while r < n
        invariant
            0 <= r <= n,
            n == rows@.len(),
            n >= 1,
            h == header.deep_view(),
            rs == rows.deep_view(),
            rs.len() == n,
            base =~= seq![LBRACK, LF],
            out@ + body_from(h, rs, r as int) == base + body_from(h, rs, 0),
        decreases n - r,
    {
        let ghost out0 = out@;
        push_object(&mut out, header, &rows[r]);
        proof {
            assert(rows@[r as int].deep_view() == rs[r as int]);
        }
        if r < n - 1 {
            out.push(COMMA);
            out.push(LF);
            proof {
                assert(out@ =~= out0 + (obj_bytes(row_pairs(h, rs[r as int])) + seq![COMMA, LF]));
                assert(body_from(h, rs, r as int) == obj_bytes(row_pairs(h, rs[r as int])) + seq![
                    COMMA,
                    LF,
                ] + body_from(h, rs, r as int + 1));
                assert(out@ + body_from(h, rs, r as int + 1) =~= out0 + body_from(h, rs, r as int));
            }
        } else {
            proof {
                assert(r == n - 1);
                assert(body_from(h, rs, r as int) == obj_bytes(row_pairs(h, rs[r as int])));
                assert(body_from(h, rs, r as int + 1) =~= Seq::<u8>::empty());
                assert(out@ + body_from(h, rs, r as int + 1) =~= out0 + body_from(h, rs, r as int));
            }
        }
        r = r + 1;
    }
    out.push(LF);
    out.push(RBRACK);
    proof {
        assert(body_from(h, rs, n as int) =~= Seq::<u8>::empty());
        assert(out@ =~= (base + body_from(h, rs, 0)) + seq![LF, RBRACK]);
        assert(out@ =~= render_json_spec(h, rs));
    }
    out
}

} // verus!
