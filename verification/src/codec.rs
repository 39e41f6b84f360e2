//! The format codec: the GOLN textual grid description, and random grid
//! construction.

use vstd::prelude::*;
use vstd::string::{StrSliceExecFns, StringSliceAdditionalSpecFns};
use crate::model::{all_dead, set_cell, wf_cells};
use crate::store::{grid_cells, grid_cols, grid_get, grid_new, grid_rows, grid_set};

verus! {

/// The GOLN line separator, `\n`.
pub const NL_BYTE: u8 = 10;

/// The GOLN coordinate separator, `,`.
pub const COMMA_BYTE: u8 = 44;

/// The GOLN dimension separator, `x`.
pub const X_BYTE: u8 = 120;

/// Whether `b` is an ASCII decimal digit.
pub open spec fn is_digit(b: u8) -> bool {
    48 <= b <= 57
}

/// Whether `s` is a nonempty run of decimal digits.
pub open spec fn is_digits(s: Seq<u8>) -> bool {
    s.len() >= 1 && forall|i: int| 0 <= i < s.len() ==> is_digit(#[trigger] s[i])
}

/// The value of a run of decimal digits, most significant first.
pub open spec fn digits_val(s: Seq<u8>) -> int
    decreases s.len(),
{
    if s.len() == 0 {
        0
    } else {
        digits_val(s.drop_last()) * 10 + (s.last() - 48)
    }
}

/// The first position at or after `from` holding `b`, or `s.len()` if none.
pub open spec fn find_byte(s: Seq<u8>, from: int, b: u8) -> int
    decreases s.len() - from,
{
    if from < 0 || from >= s.len() {
        s.len() as int
    } else if s[from] == b {
        from
    } else {
        find_byte(s, from + 1, b)
    }
}

/// `find_byte` stays within `[from, s.len()]`.
proof fn lemma_find_byte_bounds(s: Seq<u8>, from: int, b: u8)
    requires
        0 <= from <= s.len(),
    ensures
        from <= find_byte(s, from, b) <= s.len(),
    decreases s.len() - from,
{
    if from < s.len() && s[from] != b {
        lemma_find_byte_bounds(s, from + 1, b);
    }
}

/// A GOLN pair `<a><sep><b>`, both sides nonempty runs of decimal digits.
/// Splitting happens at the first `sep`; anything else is malformed.
pub open spec fn pair_val(s: Seq<u8>, sep: u8) -> Option<(int, int)> {
    let i = find_byte(s, 0, sep);
    if i == s.len() {
        None
    } else {
        let left = s.subrange(0, i);
        let right = s.subrange(i + 1, s.len() as int);
        if is_digits(left) && is_digits(right) {
            Some((digits_val(left), digits_val(right)))
        } else {
            None
        }
    }
}

/// The input with one trailing newline removed, as `str::lines` would.
pub open spec fn strip_newline(s: Seq<u8>) -> Seq<u8> {
    if s.len() > 0 && s.last() == NL_BYTE {
        s.drop_last()
    } else {
        s
    }
}

/// Parses the coordinate lines of `t` from position `i` on, marking each
/// listed cell alive in `acc`. A line that is not a `x,y` pair of in-bounds
/// coordinates is malformed.
pub open spec fn parse_cells_spec(
    t: Seq<u8>,
    i: int,
    w: int,
    h: int,
    acc: Seq<Seq<bool>>,
) -> Result<Seq<Seq<bool>>, GridError>
    decreases t.len() - i,
    via parse_cells_spec_dec
{
    if i > t.len() {
        Ok(acc)
    } else {
        let e = find_byte(t, i, NL_BYTE);
        match pair_val(t.subrange(i, e), COMMA_BYTE) {
            None => Err(GridError::FormatError),
            Some((x, y)) => if x >= w || y >= h {
                Err(GridError::FormatError)
            } else if e >= t.len() {
                Ok(set_cell(acc, y, x))
            } else {
                parse_cells_spec(t, e + 1, w, h, set_cell(acc, y, x))
            },
        }
    }
}

#[via_fn]
proof fn parse_cells_spec_dec(t: Seq<u8>, i: int, w: int, h: int, acc: Seq<Seq<bool>>) {
    if 0 <= i <= t.len() {
        lemma_find_byte_bounds(t, i, NL_BYTE);
    }
}

/// What parsing a GOLN byte sequence yields: the header gives the
/// dimensions (`<width>x<height>`), every further line one live cell
/// (`<x>,<y>`), everything else dead. A malformed header, a malformed pair,
/// or an out-of-bounds coordinate is a `FormatError`; a zero dimension, or
/// one too large for the machine, is `InvalidDimensions`.
pub open spec fn parse_goln_spec(s: Seq<u8>) -> Result<Seq<Seq<bool>>, GridError> {
    let t = strip_newline(s);
    let e0 = find_byte(t, 0, NL_BYTE);
    match pair_val(t.subrange(0, e0), X_BYTE) {
        None => Err(GridError::FormatError),
        Some((w, h)) => if w > usize::MAX || h > usize::MAX {
            Err(GridError::FormatError)
        } else if w == 0 || h == 0 {
            Err(GridError::InvalidDimensions)
        } else if w * h > usize::MAX {
            Err(GridError::InvalidDimensions)
        } else if e0 >= t.len() {
            Ok(all_dead(h as nat, w as nat))
        } else {
            parse_cells_spec(t, e0 + 1, w, h, all_dead(h as nat, w as nat))
        },
    }
}

/// The errors the codec can report.
#[derive(Clone, Copy, Debug, PartialEq, Eq, Structural)]
pub enum GridError {
    /// The GOLN input is malformed: a bad header, a bad coordinate pair, a
    /// non-numeric field, or a coordinate outside the grid.
    FormatError,
    /// A zero (or unrepresentably large) width or height was requested.
    InvalidDimensions,
}

/// The decimal digits of `n`, most significant first, no leading zeros.
pub open spec fn dec_digits(n: int) -> Seq<u8>
    decreases n,
{
    if n < 10 {
        seq![(48 + n) as u8]
    } else {
        dec_digits(n / 10).push((48 + (n % 10)) as u8)
    }
}

/// A GOLN pair `<a><sep><b>` in bytes.
pub open spec fn pair_bytes(a: int, b: int, sep: u8) -> Seq<u8> {
    dec_digits(a) + seq![sep] + dec_digits(b)
}

/// The GOLN encoding of every live cell at or after column `x` of row `y`,
/// row-major, each as a line `\n<x>,<y>`.
pub open spec fn enc_from(cells: Seq<Seq<bool>>, y: int, x: int) -> Seq<u8>
    decreases cells.len() - y, cells[0].len() - x,
{
    if y < 0 || y >= cells.len() {
        Seq::empty()
    } else if x < 0 || x >= cells[0].len() {
        enc_from(cells, y + 1, 0)
    } else if cells[y][x] {
        seq![NL_BYTE] + pair_bytes(x, y, COMMA_BYTE) + enc_from(cells, y, x + 1)
    } else {
        enc_from(cells, y, x + 1)
    }
}

/// The canonical GOLN encoding of a grid: the `<width>x<height>` header,
/// then one `<x>,<y>` line per live cell, row-major. This is the
/// newline-separated sub-format; `parse_goln_spec` reads it back.
pub open spec fn encode_spec(cells: Seq<Seq<bool>>) -> Seq<u8> {
    pair_bytes(cells[0].len() as int, cells.len() as int, X_BYTE) + enc_from(cells, 0, 0)
}

/// The decimal digits of a non-negative number are digits, and read back to
/// the number itself.
proof fn lemma_dec_digits_props(n: int)
    requires
        n >= 0,
    ensures
        dec_digits(n).len() >= 1,
        forall|k: int| 0 <= k < dec_digits(n).len() ==> is_digit(#[trigger] dec_digits(n)[k]),
        digits_val(dec_digits(n)) == n,
    decreases n,
{
    if n < 10 {
        let d0 = dec_digits(n);
        assert(d0 == seq![(48 + n) as u8]);
        assert(d0.len() == 1);
        assert(d0.last() == (48 + n) as u8);
        assert(d0.drop_last() =~= Seq::<u8>::empty());
        assert(digits_val(Seq::<u8>::empty()) == 0);
        assert(digits_val(d0) == digits_val(d0.drop_last()) * 10 + (d0.last() - 48));
        assert(d0.last() - 48 == n);
    } else {
        lemma_dec_digits_props(n / 10);
        vstd::arithmetic::div_mod::lemma_fundamental_div_mod(n, 10);
        let d = dec_digits(n);
        assert(d.drop_last() =~= dec_digits(n / 10));
        assert(d.last() == (48 + (n % 10)) as u8);
        assert(digits_val(d) == digits_val(dec_digits(n / 10)) * 10 + (n % 10));
    }
}

/// Marks alive in `acc` every cell that is alive in `cells` at or after
/// column `x` of row `y`, row-major: what parsing `enc_from(cells, y, x)`
/// does to an accumulator.
pub open spec fn apply_from(
    cells: Seq<Seq<bool>>,
    y: int,
    x: int,
    acc: Seq<Seq<bool>>,
) -> Seq<Seq<bool>>
    decreases cells.len() - y, cells[0].len() - x,
{
    if y < 0 || y >= cells.len() {
        acc
    } else if x < 0 || x >= cells[0].len() {
        apply_from(cells, y + 1, 0, acc)
    } else if cells[y][x] {
        apply_from(cells, y, x + 1, set_cell(acc, y, x))
    } else {
        apply_from(cells, y, x + 1, acc)
    }
}

/// What `apply_from` leaves in each cell: what was there, or the source
/// cell when it is alive and at or after the start position.
proof fn lemma_apply_from_cells(cells: Seq<Seq<bool>>, y: int, x: int, acc: Seq<Seq<bool>>)
    requires
        wf_cells(cells),
        0 <= y,
        0 <= x,
        acc.len() == cells.len(),
        forall|i: int| 0 <= i < acc.len() ==> (#[trigger] acc[i]).len() == cells[0].len(),
    ensures
        apply_from(cells, y, x, acc).len() == cells.len(),
        forall|i: int|
            0 <= i < cells.len() ==> (#[trigger] apply_from(cells, y, x, acc)[i]).len()
                == cells[0].len(),
        forall|i: int, j: int|
            0 <= i < cells.len() && 0 <= j < cells[0].len() ==> apply_from(cells, y, x, acc)[i][j]
                == (acc[i][j] || (cells[i][j] && (i > y || (i == y && j >= x)))),
    decreases cells.len() - y, cells[0].len() - x,
{
    if y >= cells.len() {
    } else if x >= cells[0].len() {
        lemma_apply_from_cells(cells, y + 1, 0, acc);
        assert(apply_from(cells, y, x, acc) == apply_from(cells, y + 1, 0, acc));
    } else if cells[y][x] {
        let acc2 = set_cell(acc, y, x);
        assert(acc2.len() == acc.len());
        assert(forall|i: int|
            0 <= i < acc2.len() ==> (#[trigger] acc2[i]).len() == cells[0].len());
        lemma_apply_from_cells(cells, y, x + 1, acc2);
        assert(apply_from(cells, y, x, acc) == apply_from(cells, y, x + 1, acc2));
        assert forall|i: int, j: int|
            0 <= i < cells.len() && 0 <= j < cells[0].len() implies apply_from(cells, y, x, acc)[i][j]
                == (acc[i][j] || (cells[i][j] && (i > y || (i == y && j >= x)))) by {
            if i == y && j == x {
                assert(acc2[y][x] == true);
            } else if i == y {
                assert(acc2[i][j] == acc[i][j]);
            } else {
                assert(acc2[i] == acc[i]);
            }
        }
    } else {
        lemma_apply_from_cells(cells, y, x + 1, acc);
        assert(apply_from(cells, y, x, acc) == apply_from(cells, y, x + 1, acc));
    }
}

/// An empty remainder encoding applies nothing.
proof fn lemma_enc_empty(cells: Seq<Seq<bool>>, y: int, x: int, acc: Seq<Seq<bool>>)
    requires
        0 <= y,
        0 <= x,
        enc_from(cells, y, x).len() == 0,
    ensures
        apply_from(cells, y, x, acc) == acc,
    decreases cells.len() - y, cells[0].len() - x,
{
    if y >= cells.len() {
    } else if x >= cells[0].len() {
        lemma_enc_empty(cells, y + 1, 0, acc);
    } else if cells[y][x] {
        assert(enc_from(cells, y, x).len() >= 1);
    } else {
        lemma_enc_empty(cells, y, x + 1, acc);
    }
}

/// A nonempty remainder encoding starts with a newline and ends with a
/// digit.
proof fn lemma_enc_shape(cells: Seq<Seq<bool>>, y: int, x: int)
    requires
        0 <= y,
        0 <= x,
    ensures
        enc_from(cells, y, x).len() > 0 ==> enc_from(cells, y, x)[0] == NL_BYTE,
        enc_from(cells, y, x).len() > 0 ==> is_digit(enc_from(cells, y, x).last()),
    decreases cells.len() - y, cells[0].len() - x,
{
    if y >= cells.len() {
    } else if x >= cells[0].len() {
        lemma_enc_shape(cells, y + 1, 0);
    } else if cells[y][x] {
        let item = seq![NL_BYTE] + pair_bytes(x, y, COMMA_BYTE);
        let rest = enc_from(cells, y, x + 1);
        lemma_enc_shape(cells, y, x + 1);
        lemma_dec_digits_props(y);
        assert(enc_from(cells, y, x) == item + rest);
        assert((item + rest)[0] == NL_BYTE);
        if rest.len() == 0 {
            assert((item + rest).last() == item.last());
            assert(item.last() == dec_digits(y).last());
        } else {
            assert((item + rest).last() == rest.last());
        }
    } else {
        lemma_enc_shape(cells, y, x + 1);
    }
}

/// A GOLN pair printed from non-negative numbers parses back to them.
proof fn lemma_pair_val_of_bytes(a: int, b: int, sep: u8)
    requires
        a >= 0,
        b >= 0,
        !is_digit(sep),
    ensures
        pair_val(pair_bytes(a, b, sep), sep) == Some((a, b)),
{
    let s = pair_bytes(a, b, sep);
    lemma_dec_digits_props(a);
    lemma_dec_digits_props(b);
    let la = dec_digits(a).len() as int;
    assert forall|j: int| 0 <= j < la implies s[j] != sep by {
        assert(s[j] == dec_digits(a)[j]);
    }
    assert(s[la] == sep);
    lemma_find_byte_at(s, 0, sep, la);
    assert(s.subrange(0, la) =~= dec_digits(a));
    assert(s.subrange(la + 1, s.len() as int) =~= dec_digits(b));
}

/// The heart of the round trip: when the tail of `t` is the encoding of the
/// live cells at or after `(y, x)`, parsing `t` from just after that tail's
/// leading newline marks exactly those cells in the accumulator.
proof fn lemma_parse_enc(cells: Seq<Seq<bool>>, t: Seq<u8>, y: int, x: int, acc: Seq<Seq<bool>>)
    requires
        wf_cells(cells),
        0 <= y <= cells.len(),
        0 <= x <= cells[0].len(),
        acc.len() == cells.len(),
        forall|i: int| 0 <= i < acc.len() ==> (#[trigger] acc[i]).len() == cells[0].len(),
        enc_from(cells, y, x).len() > 0,
        t.len() >= enc_from(cells, y, x).len(),
        t.subrange(t.len() - enc_from(cells, y, x).len(), t.len() as int) == enc_from(
            cells,
            y,
            x,
        ),
    ensures
        parse_cells_spec(
            t,
            t.len() - enc_from(cells, y, x).len() + 1,
            cells[0].len() as int,
            cells.len() as int,
            acc,
        ) == Ok::<Seq<Seq<bool>>, GridError>(apply_from(cells, y, x, acc)),
    decreases cells.len() - y, cells[0].len() - x,
{
    let w = cells[0].len() as int;
    let h = cells.len() as int;
    let suf = enc_from(cells, y, x);
    let pos = t.len() - suf.len();
    if y >= h {
        assert(suf.len() == 0);
    } else if x >= w {
        assert(suf == enc_from(cells, y + 1, 0));
        lemma_parse_enc(cells, t, y + 1, 0, acc);
    } else if cells[y][x] {
        let pb = pair_bytes(x, y, COMMA_BYTE);
        let rest = enc_from(cells, y, x + 1);
        let acc2 = set_cell(acc, y, x);
        assert(suf == seq![NL_BYTE] + pb + rest);
        lemma_dec_digits_props(x);
        lemma_dec_digits_props(y);
        let line_end = pos + 1 + pb.len();
        assert forall|j: int| pos + 1 <= j < line_end implies t[j] != NL_BYTE by {
            assert(t[j] == suf[j - pos]);
            assert(suf[j - pos] == pb[j - pos - 1]);
            let k = j - pos - 1;
            if k < dec_digits(x).len() {
                assert(pb[k] == dec_digits(x)[k]);
            } else if k == dec_digits(x).len() {
                assert(pb[k] == COMMA_BYTE);
            } else {
                assert(pb[k] == dec_digits(y)[k - dec_digits(x).len() - 1]);
            }
        }
        assert(t.subrange(pos + 1, line_end) =~= pb) by {
            assert forall|j: int|
                0 <= j < pb.len() implies t.subrange(pos + 1, line_end)[j] == pb[j] by {
                assert(t[pos + 1 + j] == suf[1 + j]);
                assert(suf[1 + j] == pb[j]);
            }
        }
        lemma_pair_val_of_bytes(x, y, COMMA_BYTE);
        if rest.len() == 0 {
            assert(line_end == t.len());
            lemma_find_byte_at(t, pos + 1, NL_BYTE, t.len() as int);
            assert(parse_cells_spec(t, pos + 1, w, h, acc) == Ok::<Seq<Seq<bool>>, GridError>(
                acc2,
            ));
            lemma_enc_empty(cells, y, x + 1, acc2);
            assert(apply_from(cells, y, x, acc) == acc2);
        } else {
            assert(line_end < t.len());
            lemma_enc_shape(cells, y, x + 1);
            assert(t[line_end] == suf[line_end - pos]);
            assert(suf[line_end - pos] == rest[0]);
            assert(t[line_end] == NL_BYTE);
            lemma_find_byte_at(t, pos + 1, NL_BYTE, line_end);
            assert(t.subrange(t.len() - rest.len(), t.len() as int) =~= rest) by {
                assert(t.len() - rest.len() == line_end);
                assert forall|j: int|
                    0 <= j < rest.len() implies t.subrange(line_end, t.len() as int)[j] == rest[j] by {
                    assert(t[line_end + j] == suf[line_end - pos + j]);
                    assert(suf[line_end - pos + j] == rest[j]);
                }
            }
            lemma_parse_enc(cells, t, y, x + 1, acc2);
            assert(parse_cells_spec(t, pos + 1, w, h, acc) == parse_cells_spec(
                t,
                line_end + 1,
                w,
                h,
                acc2,
            ));
            assert(apply_from(cells, y, x, acc) == apply_from(cells, y, x + 1, acc2));
        }
    } else {
        assert(suf == enc_from(cells, y, x + 1));
        lemma_parse_enc(cells, t, y, x + 1, acc);
        assert(apply_from(cells, y, x, acc) == apply_from(cells, y, x + 1, acc));
    }
}

/// LAW: the GOLN round trip. Encoding a well-formed grid and parsing the
/// result reproduces the grid exactly: same dimensions, same live cells.
pub proof fn lemma_goln_round_trip(cells: Seq<Seq<bool>>)
    requires
        wf_cells(cells),
    ensures
        parse_goln_spec(encode_spec(cells)) == Ok::<Seq<Seq<bool>>, GridError>(cells),
{
    let w = cells[0].len() as int;
    let h = cells.len() as int;
    let s = encode_spec(cells);
    let hdr = pair_bytes(w, h, X_BYTE);
    let body = enc_from(cells, 0, 0);
    lemma_dec_digits_props(w);
    lemma_dec_digits_props(h);
    lemma_enc_shape(cells, 0, 0);
    assert(s == hdr + body);
    assert(w >= 1 && h >= 1);
    assert(w <= usize::MAX && h <= usize::MAX) by (nonlinear_arith)
        requires
            w >= 1,
            h >= 1,
            h * w <= usize::MAX,
    ;
    assert(h * w == w * h) by (nonlinear_arith);
    // the encoding never ends in a newline, so stripping changes nothing
    assert(s.len() > 0);
    if body.len() == 0 {
        assert(s.last() == hdr.last());
        assert(hdr.last() == dec_digits(h).last());
    } else {
        assert(s.last() == body.last());
    }
    assert(s.last() != NL_BYTE);
    assert(strip_newline(s) == s);
    let dead = all_dead(h as nat, w as nat);
    assert(dead.len() == cells.len());
    assert(forall|i: int| 0 <= i < dead.len() ==> (#[trigger] dead[i]).len() == cells[0].len());
    assert forall|j: int| 0 <= j < hdr.len() implies s[j] != NL_BYTE by {
        assert(s[j] == hdr[j]);
        let lw = dec_digits(w).len() as int;
        if j < lw {
            assert(hdr[j] == dec_digits(w)[j]);
        } else if j == lw {
            assert(hdr[j] == X_BYTE);
        } else {
            assert(hdr[j] == dec_digits(h)[j - lw - 1]);
        }
    }
    lemma_pair_val_of_bytes(w, h, X_BYTE);
    assert(s.subrange(0, hdr.len() as int) =~= hdr);
    if body.len() == 0 {
        lemma_find_byte_at(s, 0, NL_BYTE, s.len() as int);
        assert(parse_goln_spec(s) == Ok::<Seq<Seq<bool>>, GridError>(dead));
        lemma_enc_empty(cells, 0, 0, dead);
        lemma_apply_from_cells(cells, 0, 0, dead);
        assert(cells =~~= dead);
    } else {
        assert(s[hdr.len() as int] == body[0]);
        assert(s[hdr.len() as int] == NL_BYTE);
        lemma_find_byte_at(s, 0, NL_BYTE, hdr.len() as int);
        assert(s.subrange(s.len() - body.len(), s.len() as int) =~= body);
        lemma_parse_enc(cells, s, 0, 0, dead);
        assert(parse_goln_spec(s) == Ok::<Seq<Seq<bool>>, GridError>(apply_from(cells, 0, 0, dead)));
        lemma_apply_from_cells(cells, 0, 0, dead);
        assert(apply_from(cells, 0, 0, dead) =~~= cells);
    }
}

/// `find_byte` returns the position characterised by "no hit before, a hit
/// (or the end) at".
proof fn lemma_find_byte_at(s: Seq<u8>, from: int, b: u8, i: int)
    requires
        0 <= from <= i <= s.len(),
        forall|j: int| from <= j < i ==> s[j] != b,
        i < s.len() ==> s[i] == b,
    ensures
        find_byte(s, from, b) == i,
    decreases i - from,
{
    if from < i {
        lemma_find_byte_at(s, from + 1, b, i);
    }
}

/// A run of digits has a non-negative value.
proof fn lemma_digits_val_nonneg(s: Seq<u8>)
    requires
        forall|i: int| 0 <= i < s.len() ==> is_digit(#[trigger] s[i]),
    ensures
        digits_val(s) >= 0,
    decreases s.len(),
{
    if s.len() > 0 {
        lemma_digits_val_nonneg(s.drop_last());
    }
}

/// Extending a run of digits to the right never shrinks its value.
proof fn lemma_digits_val_prefix(s: Seq<u8>, i: int)
    requires
        forall|k: int| 0 <= k < s.len() ==> is_digit(#[trigger] s[k]),
        0 <= i <= s.len(),
    ensures
        digits_val(s) >= digits_val(s.subrange(0, i)),
    decreases s.len() - i,
{
    if i == s.len() {
        assert(s.subrange(0, i) =~= s);
    } else {
        let p = s.subrange(0, i + 1);
        assert(p.drop_last() =~= s.subrange(0, i));
        lemma_digits_val_nonneg(s.subrange(0, i));
        lemma_digits_val_prefix(s, i + 1);
    }
}

/// The first position in `v[from..to]` holding `b`, or `to` if none.
fn find_byte_in(v: &Vec<u8>, from: usize, to: usize, b: u8) -> (r: usize)
    requires
        from <= to <= v@.len(),
    ensures
        from <= r <= to,
        forall|j: int| from <= j < r ==> v@[j] != b,
        r < to ==> v@[r as int] == b,
{
    let mut i = from;
    while i < to
        invariant
            from <= i <= to <= v@.len(),
            forall|j: int| from <= j < i ==> v@[j] != b,
        decreases to - i,
    {
        if v[i] == b {
            return i;
        }
        i = i + 1;
    }
    to
}

/// Parses `v[from..to]` as a nonempty run of decimal digits. `None` when it
/// is not one, or when its value does not fit in `usize`.
fn parse_number(v: &Vec<u8>, from: usize, to: usize) -> (r: Option<usize>)
    requires
        from <= to <= v@.len(),
    ensures
        ({
            let s = v@.subrange(from as int, to as int);
            match r {
                Some(n) => is_digits(s) && digits_val(s) == n,
                None => !is_digits(s) || digits_val(s) > usize::MAX,
            }
        }),
{
    let ghost s = v@.subrange(from as int, to as int);
    if from == to {
        return None;
    }
    let mut acc: usize = 0;
    let mut i = from;
    while i < to
        invariant
            from <= i <= to <= v@.len(),
            from < to,
            s == v@.subrange(from as int, to as int),
            forall|j: int| from <= j < i ==> is_digit(#[trigger] v@[j]),
            acc == digits_val(v@.subrange(from as int, i as int)),
        decreases to - i,
    {
        let b = v[i];
        if b < 48 || b > 57 {
            assert(s[i - from] == v@[i as int]);
            return None;
        }
        let d = (b - 48) as usize;
        let ghost prefix = v@.subrange(from as int, i + 1);
        proof {
            assert(prefix.drop_last() =~= v@.subrange(from as int, i as int));
            assert(forall|k: int| 0 <= k < prefix.len() ==> is_digit(#[trigger] prefix[k]));
            lemma_digits_val_nonneg(prefix.drop_last());
        }
        let acc10 = match acc.checked_mul(10) {
            Some(a) => a,
            None => {
                proof {
                    if is_digits(s) {
                        assert(s.subrange(0, i + 1 - from) =~= prefix);
                        assert(digits_val(prefix) > usize::MAX);
                        lemma_digits_val_prefix(s, i + 1 - from);
                    }
                }
                return None;
            },
        };
        let acc2 = match acc10.checked_add(d) {
            Some(a) => a,
            None => {
                proof {
                    if is_digits(s) {
                        assert(s.subrange(0, i + 1 - from) =~= prefix);
                        assert(digits_val(prefix) > usize::MAX);
                        lemma_digits_val_prefix(s, i + 1 - from);
                    }
                }
                return None;
            },
        };
        proof {
            assert(digits_val(prefix) == acc * 10 + d);
        }
        acc = acc2;
        i = i + 1;
    }
    proof {
        assert(s =~= v@.subrange(from as int, to as int));
        assert(forall|j: int| 0 <= j < s.len() ==> is_digit(#[trigger] s[j]));
    }
    Some(acc)
}

/// Parses `v[from..to]` as a `<a><sep><b>` pair of decimal numbers. `None`
/// when the pair is malformed or a side does not fit in `usize`.
fn parse_pair(v: &Vec<u8>, from: usize, to: usize, sep: u8) -> (r: Option<(usize, usize)>)
    requires
        from <= to <= v@.len(),
    ensures
        ({
            let s = v@.subrange(from as int, to as int);
            match r {
                Some(p) => pair_val(s, sep) == Some((p.0 as int, p.1 as int)),
                None => match pair_val(s, sep) {
                    Some(q) => q.0 > usize::MAX || q.1 > usize::MAX,
                    None => true,
                },
            }
        }),
{
    let ghost s = v@.subrange(from as int, to as int);
    let m = find_byte_in(v, from, to, sep);
    proof {
        assert forall|j: int| 0 <= j < m - from implies s[j] != sep by {
            assert(s[j] == v@[from + j]);
        }
        if m < to {
            assert(s[m - from] == v@[m as int]);
        }
        lemma_find_byte_at(s, 0, sep, m - from);
    }
    if m == to {
        return None;
    }
    let left = parse_number(v, from, m);
    let right = parse_number(v, m + 1, to);
    proof {
        assert(s.subrange(0, m - from) =~= v@.subrange(from as int, m as int));
        assert(s.subrange(m - from + 1, s.len() as int) =~= v@.subrange(m + 1, to as int));
    }
    match (left, right) {
        (Some(a), Some(b)) => Some((a, b)),
        _ => None,
    }
}

/// Parses a `(left, right)` pair of strings as two decimal numbers, as the
/// two halves of a split GOLN line. `None` when a side is not a nonempty
/// run of decimal digits whose value fits in `usize`.
pub fn map_split_once_to_usize(tuple: (&str, &str)) -> (r: Option<(usize, usize)>)
    ensures
        ({
            let l = tuple.0.spec_bytes();
            let rr = tuple.1.spec_bytes();
            match r {
                Some(p) => is_digits(l) && digits_val(l) == p.0 && is_digits(rr) && digits_val(
                    rr,
                ) == p.1,
                None => (!is_digits(l) || digits_val(l) > usize::MAX) || (!is_digits(rr)
                    || digits_val(rr) > usize::MAX),
            }
        }),
{
    let lv: Vec<u8> = tuple.0.as_bytes_vec();
    let rv: Vec<u8> = tuple.1.as_bytes_vec();
    proof {
        assert(lv@.subrange(0, lv@.len() as int) =~= lv@);
        assert(rv@.subrange(0, rv@.len() as int) =~= rv@);
    }
    let a = parse_number(&lv, 0, lv.len());
    let b = parse_number(&rv, 0, rv.len());
    match (a, b) {
        (Some(x), Some(y)) => Some((x, y)),
        _ => None,
    }
}

/// Parses a GOLN description into a backing grid, exactly as
/// `parse_goln_spec` reads the bytes of the input.
pub fn parse_goln(goln: &str) -> (r: Result<grid::Grid<bool>, GridError>)
    ensures
        r is Ok <==> parse_goln_spec(goln.spec_bytes()) is Ok,
        r is Ok ==> grid_cells(r->Ok_0) == parse_goln_spec(goln.spec_bytes())->Ok_0,
        r is Ok ==> wf_cells(grid_cells(r->Ok_0)),
        r is Err ==> r->Err_0 == parse_goln_spec(goln.spec_bytes())->Err_0,
{
    let bytes: Vec<u8> = goln.as_bytes_vec();
    let n = bytes.len();
    let t_end = if n > 0 && bytes[n - 1] == NL_BYTE {
        n - 1
    } else {
        n
    };
    let ghost t = strip_newline(goln.spec_bytes());
    proof {
        if n > 0 && bytes@[n - 1] == NL_BYTE {
            assert(t =~= bytes@.subrange(0, t_end as int));
        } else {
            assert(t =~= bytes@.subrange(0, t_end as int));
        }
    }
    let e0 = find_byte_in(&bytes, 0, t_end, NL_BYTE);
    proof {
        assert forall|j: int| 0 <= j < e0 implies t[j] != NL_BYTE by {
            assert(t[j] == bytes@[j]);
        }
        if e0 < t_end {
            assert(t[e0 as int] == bytes@[e0 as int]);
        }
        lemma_find_byte_at(t, 0, NL_BYTE, e0 as int);
        assert(t.subrange(0, e0 as int) =~= bytes@.subrange(0, e0 as int));
    }
    let header = parse_pair(&bytes, 0, e0, X_BYTE);
    let (w, h) = match header {
        Some(p) => p,
        None => {
            return Err(GridError::FormatError);
        },
    };
    if w == 0 || h == 0 {
        return Err(GridError::InvalidDimensions);
    }
    if w.checked_mul(h).is_none() {
        return Err(GridError::InvalidDimensions);
    }
    let mut g = grid_new(h, w);
    proof {
        vstd::arithmetic::mul::lemma_mul_is_commutative(h as int, w as int);
    }
    if e0 == t_end {
        assert(wf_cells(grid_cells(g)));
        return Ok(g);
    }
    let mut i = e0 + 1;
    while i <= t_end
        invariant
            bytes@ == goln.spec_bytes(),
            t == strip_newline(bytes@),
            t =~= bytes@.subrange(0, t_end as int),
            t.len() == t_end,
            t_end <= bytes@.len(),
            0 < i <= t_end,
            1 <= w,
            1 <= h,
            w * h <= usize::MAX,
            grid_cells(g).len() == h,
            forall|k: int| 0 <= k < h ==> (#[trigger] grid_cells(g)[k]).len() == w,
            parse_cells_spec(t, i as int, w as int, h as int, grid_cells(g))
                == parse_goln_spec(bytes@),
        decreases t_end - i,
    {
        let e = find_byte_in(&bytes, i, t_end, NL_BYTE);
        proof {
            assert forall|j: int| i <= j < e implies t[j] != NL_BYTE by {
                assert(t[j] == bytes@[j]);
            }
            if e < t_end {
                assert(t[e as int] == bytes@[e as int]);
            }
            lemma_find_byte_at(t, i as int, NL_BYTE, e as int);
            assert(t.subrange(i as int, e as int) =~= bytes@.subrange(i as int, e as int));
        }
        let pair = parse_pair(&bytes, i, e, COMMA_BYTE);
        let (x, y) = match pair {
            Some(p) => p,
            None => {
                return Err(GridError::FormatError);
            },
        };
        if x >= w || y >= h {
            return Err(GridError::FormatError);
        }
        grid_set(&mut g, y, x, true);
        if e == t_end {
            proof {
                vstd::arithmetic::mul::lemma_mul_is_commutative(h as int, w as int);
            }
            assert(wf_cells(grid_cells(g)));
            return Ok(g);
        }
        i = e + 1;
    }
    proof {
        assert(false);
    }
    Err(GridError::FormatError)
}

/// Appends the decimal digits of `n` to `buf`.
fn push_number(buf: &mut Vec<u8>, n: usize)
    ensures
        final(buf)@ == old(buf)@ + dec_digits(n as int),
    decreases n,
{
    if n < 10 {
        buf.push(48 + n as u8);
        assert(final(buf)@ =~= old(buf)@ + dec_digits(n as int));
    } else {
        assert(n / 10 < n) by (nonlinear_arith)
            requires
                n >= 10,
        ;
        push_number(buf, n / 10);
        let d = n % 10;
        buf.push(48 + d as u8);
        assert(final(buf)@ =~= old(buf)@ + dec_digits(n as int));
    }
}

/// Relies on `String::from_utf8`: bytes below 128 are ASCII, hence valid
/// UTF-8, and the returned string's UTF-8 bytes are exactly the input.
#[verifier::external_body]
fn string_from_ascii(bytes: Vec<u8>) -> (s: String)
    requires
        forall|i: int| 0 <= i < bytes@.len() ==> bytes@[i] < 128,
    ensures
        vstd::utf8::encode_utf8(s@) == bytes@,
{
    String::from_utf8(bytes).unwrap_or_default()
}

/// Writes a grid out in the canonical GOLN form: the dimension header, then
/// one `<x>,<y>` line per live cell, row-major.
pub fn encode_goln(g: &grid::Grid<bool>) -> (out: String)
    requires
        wf_cells(grid_cells(*g)),
    ensures
        vstd::utf8::encode_utf8(out@) == encode_spec(grid_cells(*g)),
{
    let ghost cells = grid_cells(*g);
    let rows = grid_rows(g);
    let cols = grid_cols(g);
    let mut buf: Vec<u8> = Vec::new();
    push_number(&mut buf, cols);
    buf.push(X_BYTE);
    push_number(&mut buf, rows);
    proof {
        assert(buf@ =~= pair_bytes(cols as int, rows as int, X_BYTE));
        lemma_dec_digits_props(cols as int);
        lemma_dec_digits_props(rows as int);
    }
    for y in 0..rows
        invariant
            wf_cells(cells),
            cells == grid_cells(*g),
            rows == cells.len(),
            cols == cells[0].len(),
            buf@ + enc_from(cells, y as int, 0) == encode_spec(cells),
            forall|k: int| 0 <= k < buf@.len() ==> buf@[k] < 128,
    {
        for x in 0..cols
            invariant
                wf_cells(cells),
                cells == grid_cells(*g),
                rows == cells.len(),
                cols == cells[0].len(),
                y < rows,
                buf@ + enc_from(cells, y as int, x as int) == encode_spec(cells),
                forall|k: int| 0 <= k < buf@.len() ==> buf@[k] < 128,
        {
            assert(cells[y as int].len() == cols);
            if grid_get(g, y, x) {
                let ghost prev = buf@;
                buf.push(NL_BYTE);
                push_number(&mut buf, x);
                buf.push(COMMA_BYTE);
                push_number(&mut buf, y);
                proof {
                    lemma_dec_digits_props(x as int);
                    lemma_dec_digits_props(y as int);
                    assert(buf@ =~= prev + (seq![NL_BYTE] + pair_bytes(
                        x as int,
                        y as int,
                        COMMA_BYTE,
                    )));
                    assert(prev + (seq![NL_BYTE] + pair_bytes(x as int, y as int, COMMA_BYTE))
                        + enc_from(cells, y as int, x + 1) =~= prev + enc_from(
                        cells,
                        y as int,
                        x as int,
                    ));
                }
            }
        }
        proof {
            assert(enc_from(cells, y as int, cols as int) == enc_from(cells, y + 1, 0));
        }
    }
    proof {
        assert(enc_from(cells, rows as int, 0) =~= Seq::<u8>::empty());
        assert(buf@ =~= encode_spec(cells));
    }
    string_from_ascii(buf)
}

/// Relies on `rand::random`.
pub assume_specification<T>[ rand::random::<T> ]() -> (r: T)
    where
        rand::distributions::Standard: rand::distributions::Distribution<T>,
;

/// A grid of `height` rows and `width` columns whose cells are each drawn
/// from the process-wide random source. Fails exactly on a zero dimension;
/// the dimensions of a returned grid are always exactly as requested.
pub fn random_grid(width: usize, height: usize) -> (r: Result<grid::Grid<bool>, GridError>)
    requires
        width * height <= usize::MAX,
    ensures
        r is Err <==> (width == 0 || height == 0),
        r is Err ==> r->Err_0 == GridError::InvalidDimensions,
        r is Ok ==> grid_cells(r->Ok_0).len() == height,
        r is Ok ==> forall|y: int|
            0 <= y < height ==> (#[trigger] grid_cells(r->Ok_0)[y]).len() == width,
        r is Ok ==> wf_cells(grid_cells(r->Ok_0)),
{
    if width == 0 || height == 0 {
        return Err(GridError::InvalidDimensions);
    }
    proof {
        vstd::arithmetic::mul::lemma_mul_is_commutative(width as int, height as int);
    }
    let mut g = grid_new(height, width);
    for y in 0..height
        invariant
            grid_cells(g).len() == height,
            forall|i: int| 0 <= i < height ==> (#[trigger] grid_cells(g)[i]).len() == width,
    {
        for x in 0..width
            invariant
                y < height,
                grid_cells(g).len() == height,
                forall|i: int| 0 <= i < height ==> (#[trigger] grid_cells(g)[i]).len() == width,
        {
            let alive: bool = rand::random();
            grid_set(&mut g, y, x, alive);
        }
    }
    assert(wf_cells(grid_cells(g)));
    Ok(g)
}

} // verus!
