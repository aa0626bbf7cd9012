//! The textual matrix format.
//!
//! One row per line; within a row, elements are separated by
//! whitespace; blank lines are ignored when parsing. Elements are
//! decimal integers with an optional leading minus. A malformed token
//! is reported with its 0-based coordinates: the row counts non-blank
//! lines only, the column counts the tokens of that line.
//!
//! Formatting renders each row space-joined with a trailing newline.
//! Formatting and parsing are exact inverses: see
//! `lemma_format_parse_round_trip`.

use vstd::prelude::*;
use vstd::string::StringSliceAdditionalSpecFns;

use crate::backend::{Backend, BackendFailure};
use crate::cpu::CPU;
use crate::matrix::{flatten_grid, rows_wf, Matrix, MatrixError};

verus! {

/// An ASCII decimal digit.
pub open spec fn is_digit(c: u8) -> bool {
    48 <= c <= 57
}

/// The value of one digit byte; bytes below `'0'` count as zero so the
/// accumulation below is monotone on every input.
pub open spec fn dval(c: u8) -> nat {
    if c >= 48 {
        (c - 48) as nat
    } else {
        0
    }
}

/// The decimal digits of `x`, most significant first.
pub open spec fn dec_digits(x: nat) -> Seq<u8>
    decreases x,
{
    if x < 10 {
        seq![(48 + x) as u8]
    } else {
        dec_digits(x / 10).push((48 + x % 10) as u8)
    }
}

/// The rendering of one element: its decimal digits, with a leading
/// minus for negative values.
pub open spec fn fmt_elem(v: i32) -> Seq<u8> {
    if v < 0 {
        seq![45u8] + dec_digits((-v) as nat)
    } else {
        dec_digits(v as nat)
    }
}

/// The number a run of digit bytes denotes.
pub open spec fn dec_value(s: Seq<u8>) -> nat
    decreases s.len(),
{
    if s.len() == 0 {
        0
    } else {
        dec_value(s.drop_last()) * 10 + dval(s.last())
    }
}

/// A non-empty run of digit bytes.
pub open spec fn is_dec_token(s: Seq<u8>) -> bool {
    s.len() >= 1 && forall|i: int| 0 <= i < s.len() ==> is_digit(#[trigger] s[i])
}

/// What a token parses to: a decimal integer with an optional leading
/// minus, rejected when malformed or out of the element range.
pub open spec fn spec_parse_elem(s: Seq<u8>) -> Option<i32> {
    if s.len() >= 1 && s[0] == 45 {
        let t = s.subrange(1, s.len() as int);
        if is_dec_token(t) && dec_value(t) <= 0x8000_0000 {
            Some((0 - dec_value(t)) as i32)
        } else {
            None
        }
    } else {
        if is_dec_token(s) && dec_value(s) <= 0x7fff_ffff {
            Some(dec_value(s) as i32)
        } else {
            None
        }
    }
}

/// The digits of a number are digits, and there is at least one.
pub proof fn lemma_dec_digits_wf(x: nat)
    ensures
        is_dec_token(dec_digits(x)),
    decreases x,
{
    if x >= 10 {
        lemma_dec_digits_wf(x / 10);
    }
}

/// Reading the digits of a number gives the number back.
pub proof fn lemma_dec_value_digits(x: nat)
    ensures
        dec_value(dec_digits(x)) == x,
    decreases x,
{
    let s = dec_digits(x);
    if x < 10 {
        assert(s == seq![(48 + x) as u8]);
        assert(s.len() == 1);
        assert(s.drop_last() =~= Seq::<u8>::empty());
        assert(dec_value(s.drop_last()) == 0);
        assert(s.last() == (48 + x) as u8);
        assert(dval((48 + x) as u8) == x);
        assert(dec_value(s) == dec_value(s.drop_last()) * 10 + dval(s.last()));
    } else {
        lemma_dec_value_digits(x / 10);
        assert(s == dec_digits(x / 10).push((48 + x % 10) as u8));
        assert(s.drop_last() =~= dec_digits(x / 10));
        assert(dec_value(s.drop_last()) == x / 10);
        assert(s.last() == (48 + x % 10) as u8);
        assert(0 <= x % 10 < 10);
        assert(dval((48 + x % 10) as u8) == x % 10);
        assert(dec_value(s) == dec_value(s.drop_last()) * 10 + dval(s.last()));
        vstd::arithmetic::div_mod::lemma_fundamental_div_mod(x as int, 10);
        assert(x == 10 * (x / 10) + x % 10);
    }
}

/// A longer run of digits denotes at least as large a number.
pub proof fn lemma_dec_value_prefix(s: Seq<u8>, j: int)
    requires
        0 <= j <= s.len(),
    ensures
        dec_value(s) >= dec_value(s.take(j)),
    decreases s.len() - j,
{
    if j == s.len() {
        assert(s.take(j) =~= s);
    } else {
        assert(s.take(j + 1).drop_last() =~= s.take(j));
        lemma_dec_value_prefix(s, j + 1);
    }
}

/// Parsing undoes formatting, token by token.
pub proof fn lemma_parse_fmt_elem(v: i32)
    ensures
        spec_parse_elem(fmt_elem(v)) == Some(v),
{
    if v < 0 {
        let mag = (-v) as nat;
        lemma_dec_digits_wf(mag);
        lemma_dec_value_digits(mag);
        assert(fmt_elem(v).subrange(1, fmt_elem(v).len() as int) =~= dec_digits(mag));
        assert(fmt_elem(v)[0] == 45);
    } else {
        lemma_dec_digits_wf(v as nat);
        lemma_dec_value_digits(v as nat);
        assert(is_digit(dec_digits(v as nat)[0]));
        assert(fmt_elem(v)[0] != 45);
    }
}

/// Appends the decimal digits of `x`.
fn push_decimal(x: u32, out: &mut Vec<u8>)
    ensures
        final(out)@ == old(out)@ + dec_digits(x as nat),
    decreases x,
{
    if x < 10 {
        out.push((48 + x) as u8);
        proof {
            assert(out@ =~= old(out)@ + dec_digits(x as nat));
        }
    } else {
        let q: u32 = x / 10;
        let d: u32 = x % 10;
        push_decimal(q, out);
        out.push((48 + d) as u8);
        proof {
            assert(out@ =~= old(out)@ + dec_digits(x as nat));
        }
    }
}

/// Renders one element as decimal text.
pub fn format_elem(v: i32) -> (r: Vec<u8>)
    ensures
        r@ == fmt_elem(v),
{
    let mut out: Vec<u8> = Vec::new();
    if v < 0 {
        out.push(45u8);
        let mag: u32 = (-(v as i64)) as u32;
        push_decimal(mag, &mut out);
        proof {
            assert(out@ =~= fmt_elem(v));
        }
    } else {
        push_decimal(v as u32, &mut out);
        proof {
            assert(out@ =~= fmt_elem(v));
        }
    }
    out
}

/// In-row whitespace: space, tab, carriage return.
pub open spec fn is_ws(c: u8) -> bool {
    c == 32 || c == 9 || c == 13
}

/// The index of the first newline in `s`, or `s.len()` if there is none.
pub open spec fn find_nl(s: Seq<u8>) -> int
    decreases s.len(),
{
    if s.len() == 0 {
        0
    } else if s[0] == 10 {
        0
    } else {
        1 + find_nl(s.drop_first())
    }
}

/// The index of the first whitespace byte in `s`, or `s.len()`.
pub open spec fn find_ws(s: Seq<u8>) -> int
    decreases s.len(),
{
    if s.len() == 0 {
        0
    } else if is_ws(s[0]) {
        0
    } else {
        1 + find_ws(s.drop_first())
    }
}

pub proof fn lemma_find_nl_range(s: Seq<u8>)
    ensures
        0 <= find_nl(s) <= s.len(),
    decreases s.len(),
{
    if s.len() > 0 && s[0] != 10 {
        lemma_find_nl_range(s.drop_first());
    }
}

pub proof fn lemma_find_ws_range(s: Seq<u8>)
    ensures
        0 <= find_ws(s) <= s.len(),
    decreases s.len(),
{
    if s.len() > 0 && !is_ws(s[0]) {
        lemma_find_ws_range(s.drop_first());
    }
}

/// `find_nl` finds exactly the first newline.
pub proof fn lemma_find_nl_at(s: Seq<u8>, i: int)
    requires
        0 <= i <= s.len(),
        forall|p: int| 0 <= p < i ==> s[p] != 10,
        i == s.len() || s[i] == 10,
    ensures
        find_nl(s) == i,
    decreases i,
{
    if i == 0 {
    } else {
        assert(s[0] != 10);
        let d = s.drop_first();
        assert forall|p: int| 0 <= p < i - 1 implies d[p] != 10 by {
            assert(d[p] == s[p + 1]);
        }
        if i < s.len() {
            assert(d[i - 1] == s[i as int]);
        }
        lemma_find_nl_at(d, i - 1);
    }
}

/// `find_ws` finds exactly the first whitespace byte.
pub proof fn lemma_find_ws_at(s: Seq<u8>, i: int)
    requires
        0 <= i <= s.len(),
        forall|p: int| 0 <= p < i ==> !is_ws(s[p]),
        i == s.len() || is_ws(s[i]),
    ensures
        find_ws(s) == i,
    decreases i,
{
    if i == 0 {
    } else {
        assert(!is_ws(s[0]));
        let d = s.drop_first();
        assert forall|p: int| 0 <= p < i - 1 implies !is_ws(d[p]) by {
            assert(d[p] == s[p + 1]);
        }
        if i < s.len() {
            assert(d[i - 1] == s[i as int]);
        }
        lemma_find_ws_at(d, i - 1);
    }
}

#[via_fn]
proof fn split_lines_decreases(s: Seq<u8>) {
    lemma_find_nl_range(s);
}

/// The segments of `s` between newlines; always at least one segment,
/// and a trailing newline contributes a final empty segment, which the
/// parser later ignores as a blank line.
pub open spec fn split_lines(s: Seq<u8>) -> Seq<Seq<u8>>
    decreases s.len(),
    via split_lines_decreases
{
    let i = find_nl(s);
    if i >= s.len() {
        seq![s]
    } else {
        seq![s.take(i)] + split_lines(s.subrange(i + 1, s.len() as int))
    }
}

#[via_fn]
proof fn tokens_of_decreases(line: Seq<u8>) {
    lemma_find_ws_range(line);
    if line.len() > 0 && !is_ws(line[0]) {
        assert(find_ws(line) == 1 + find_ws(line.drop_first()));
        lemma_find_ws_range(line.drop_first());
    }
}

/// The maximal whitespace-free, non-empty runs of a line, in order.
pub open spec fn tokens_of(line: Seq<u8>) -> Seq<Seq<u8>>
    decreases line.len(),
    via tokens_of_decreases
{
    if line.len() == 0 {
        Seq::empty()
    } else if is_ws(line[0]) {
        tokens_of(line.drop_first())
    } else {
        let e = find_ws(line);
        seq![line.take(e)] + tokens_of(line.subrange(e, line.len() as int))
    }
}

/// Splits the input into its lines.
pub fn split_lines_exec(s: &[u8]) -> (r: Vec<Vec<u8>>)
    ensures
        r@.map_values(|l: Vec<u8>| l@) == split_lines(s@),
{
    let len: usize = s.len();
    let mut out: Vec<Vec<u8>> = Vec::new();
    let mut start: usize = 0;
    let mut idx: usize = 0;
    proof {
        assert(s@.subrange(0, len as int) =~= s@);
        assert(out@.map_values(|l: Vec<u8>| l@) + split_lines(s@) =~= split_lines(s@));
    }
    while idx < len
        invariant
            0 <= start <= idx <= len,
            len == s@.len(),
            forall|p: int| start <= p < idx ==> s@[p] != 10,
            split_lines(s@) == out@.map_values(|l: Vec<u8>| l@) + split_lines(
                s@.subrange(start as int, len as int),
            ),
        decreases len - idx,
    {
        if s[idx] == 10 {
            let ghost u = s@.subrange(start as int, len as int);
            proof {
                assert forall|p: int| 0 <= p < idx - start implies u[p] != 10 by {
                    assert(u[p] == s@[p + start]);
                }
                assert(u[idx - start] == s@[idx as int]);
                lemma_find_nl_at(u, idx - start);
                assert(u.take(idx - start) =~= s@.subrange(start as int, idx as int));
                assert(u.subrange(idx - start + 1, u.len() as int) =~= s@.subrange(
                    idx + 1,
                    len as int,
                ));
            }
            let seg: Vec<u8> = vstd::slice::slice_to_vec(
                vstd::slice::slice_subrange(s, start, idx),
            );
            let ghost prev = out@;
            out.push(seg);
            proof {
                assert(out@.map_values(|l: Vec<u8>| l@) =~= prev.map_values(
                    |l: Vec<u8>| l@,
                ).push(seg@));
            }
            start = idx + 1;
        }
        idx = idx + 1;
    }
    let ghost u = s@.subrange(start as int, len as int);
    proof {
        assert forall|p: int| 0 <= p < u.len() implies u[p] != 10 by {
            assert(u[p] == s@[p + start]);
        }
        lemma_find_nl_at(u, u.len() as int);
    }
    let seg: Vec<u8> = vstd::slice::slice_to_vec(vstd::slice::slice_subrange(s, start, len));
    let ghost prev = out@;
    out.push(seg);
    proof {
        assert(out@.map_values(|l: Vec<u8>| l@) =~= prev.map_values(|l: Vec<u8>| l@).push(seg@));
    }
    out
}

/// Whether a byte is in-row whitespace.
fn is_ws_byte(c: u8) -> (r: bool)
    ensures
        r == is_ws(c),
{
    c == 32 || c == 9 || c == 13
}

/// Splits one line into its whitespace-separated tokens.
pub fn tokens_of_exec(line: &[u8]) -> (r: Vec<Vec<u8>>)
    ensures
        r@.map_values(|t: Vec<u8>| t@) == tokens_of(line@),
{
    let len: usize = line.len();
    let mut out: Vec<Vec<u8>> = Vec::new();
    let mut i: usize = 0;
    proof {
        assert(line@.subrange(0, len as int) =~= line@);
        assert(out@.map_values(|t: Vec<u8>| t@) + tokens_of(line@) =~= tokens_of(line@));
    }
    while i < len
        invariant
            0 <= i <= len,
            len == line@.len(),
            tokens_of(line@) == out@.map_values(|t: Vec<u8>| t@) + tokens_of(
                line@.subrange(i as int, len as int),
            ),
        decreases len - i,
    {
        let c: u8 = line[i];
        if c == 32 || c == 9 || c == 13 {
            proof {
                let u = line@.subrange(i as int, len as int);
                assert(is_ws(u[0]));
                assert(u.drop_first() =~= line@.subrange(i + 1, len as int));
            }
            i = i + 1;
        } else {
            let mut j: usize = i + 1;
            while j < len && !is_ws_byte(line[j])
                invariant
                    i < j <= len,
                    len == line@.len(),
                    forall|p: int| i <= p < j ==> !is_ws(#[trigger] line@[p]),
                decreases len - j,
            {
                j = j + 1;
            }
            let ghost u = line@.subrange(i as int, len as int);
            proof {
                assert forall|p: int| 0 <= p < j - i implies !is_ws(u[p]) by {
                    assert(u[p] == line@[p + i]);
                }
                if j < len {
                    assert(u[j - i] == line@[j as int]);
                }
                lemma_find_ws_at(u, j - i);
                assert(u.take(j - i) =~= line@.subrange(i as int, j as int));
                assert(u.subrange(j - i, u.len() as int) =~= line@.subrange(j as int, len as int));
            }
            let tok: Vec<u8> = vstd::slice::slice_to_vec(vstd::slice::slice_subrange(line, i, j));
            let ghost prev = out@;
            out.push(tok);
            proof {
                assert(out@.map_values(|t: Vec<u8>| t@) =~= prev.map_values(
                    |t: Vec<u8>| t@,
                ).push(tok@));
            }
            i = j;
        }
    }
    proof {
        assert(line@.subrange(len as int, len as int) =~= Seq::<u8>::empty());
        assert(out@.map_values(|t: Vec<u8>| t@) + Seq::<Seq<u8>>::empty() =~= out@.map_values(
            |t: Vec<u8>| t@,
        ));
    }
    out
}

/// Parses one token as an element; `None` exactly where
/// `spec_parse_elem` rejects it.
pub fn parse_elem(s: &[u8]) -> (r: Option<i32>)
    ensures
        r == spec_parse_elem(s@),
{
    let len: usize = s.len();
    if len == 0 {
        return None;
    }
    let neg: bool = s[0] == 45;
    let start: usize = if neg {
        1
    } else {
        0
    };
    let ghost t = if neg {
        s@.subrange(1, len as int)
    } else {
        s@
    };
    if start == len {
        proof {
            assert(!is_dec_token(t));
        }
        return None;
    }
    let mut acc: u64 = 0;
    let mut i: usize = start;
    proof {
        assert(t.take(0) =~= Seq::<u8>::empty());
    }
    while i < len
        invariant
            start <= i <= len,
            len == s@.len(),
            start == 0 || start == 1,
            start < len,
            neg <==> start == 1,
            neg ==> s@[0] == 45,
            !neg ==> !(s@.len() >= 1 && s@[0] == 45),
            t == if neg {
                s@.subrange(1, len as int)
            } else {
                s@
            },
            forall|p: int| start <= p < i ==> is_digit(#[trigger] s@[p]),
            acc == dec_value(t.take(i - start)),
            acc <= 0x8000_0000,
        decreases len - i,
    {
        let c: u8 = s[i];
        if c < 48 || c > 57 {
            proof {
                assert(t[i - start] == s@[i as int]);
                assert(!is_dec_token(t));
            }
            return None;
        }
        proof {
            assert(t.take(i + 1 - start).drop_last() =~= t.take(i - start));
            assert(t.take(i + 1 - start).last() == s@[i as int]);
        }
        acc = acc * 10 + ((c - 48) as u64);
        i = i + 1;
        if acc > 0x8000_0000 {
            proof {
                lemma_dec_value_prefix(t, i - start);
            }
            return None;
        }
    }
    proof {
        assert(t.take(len - start) =~= t);
        assert(is_dec_token(t)) by {
            assert(forall|p: int| 0 <= p < t.len() ==> t[p] == s@[p + start]);
        }
    }
    if neg {
        let val: i32 = (-(acc as i64)) as i32;
        Some(val)
    } else {
        if acc > 0x7fff_ffff {
            return None;
        }
        Some(acc as i32)
    }
}

/// The token grid of the input: each line's tokens, blank lines
/// (lines without tokens) left out.
pub open spec fn nonblank_token_rows(s: Seq<u8>) -> Seq<Seq<Seq<u8>>> {
    split_lines(s).map_values(|l: Seq<u8>| tokens_of(l)).filter(
        |toks: Seq<Seq<u8>>| toks.len() > 0,
    )
}

/// One line's elements, or the 0-based column of its first bad token.
pub open spec fn parse_row(toks: Seq<Seq<u8>>) -> Result<Seq<i32>, int>
    decreases toks.len(),
{
    if toks.len() == 0 {
        Ok(Seq::empty())
    } else {
        match spec_parse_elem(toks[0]) {
            Option::None => Err(0int),
            Option::Some(v) => match parse_row(toks.drop_first()) {
                Ok(rest) => Ok(seq![v] + rest),
                Err(c) => Err(c + 1),
            },
        }
    }
}

/// The grid of elements, or the 0-based coordinates of the first bad
/// token: its row among non-blank lines and its column in that line.
pub open spec fn parse_rows(rt: Seq<Seq<Seq<u8>>>) -> Result<Seq<Seq<i32>>, (int, int)>
    decreases rt.len(),
{
    if rt.len() == 0 {
        Ok(Seq::empty())
    } else {
        match parse_row(rt[0]) {
            Err(c) => Err((0int, c)),
            Ok(vals) => match parse_rows(rt.drop_first()) {
                Ok(rest) => Ok(seq![vals] + rest),
                Err(rc) => Err((rc.0 + 1, rc.1)),
            },
        }
    }
}

/// What a whole input parses to.
pub open spec fn spec_parse_text(s: Seq<u8>) -> Result<Seq<Seq<i32>>, (int, int)> {
    parse_rows(nonblank_token_rows(s))
}

/// Parsing a row splits at any prefix of well-parsed tokens.
proof fn lemma_parse_row_prefix(toks: Seq<Seq<u8>>, j: int, vp: Seq<i32>)
    requires
        0 <= j <= toks.len(),
        vp.len() == j,
        forall|c: int| 0 <= c < j ==> spec_parse_elem(#[trigger] toks[c]) == Option::Some(vp[c]),
    ensures
        parse_row(toks) == match parse_row(toks.subrange(j, toks.len() as int)) {
            Ok(rest) => Ok::<Seq<i32>, int>(vp + rest),
            Err(c) => Err::<Seq<i32>, int>(c + j),
        },
    decreases j,
{
    if j == 0 {
        assert(toks.subrange(0, toks.len() as int) =~= toks);
        match parse_row(toks) {
            Ok(rest) => {
                assert(vp + rest =~= rest);
            },
            Err(c) => {},
        }
    } else {
        let d = toks.drop_first();
        assert(spec_parse_elem(toks[0]) == Option::Some(vp[0]));
        assert forall|c: int| 0 <= c < j - 1 implies spec_parse_elem(#[trigger] d[c])
            == Option::Some(vp.drop_first()[c]) by {
            assert(d[c] == toks[c + 1]);
            assert(vp.drop_first()[c] == vp[c + 1]);
        }
        lemma_parse_row_prefix(d, j - 1, vp.drop_first());
        assert(d.subrange(j - 1, d.len() as int) =~= toks.subrange(j, toks.len() as int));
        match parse_row(toks.subrange(j, toks.len() as int)) {
            Ok(rest) => {
                assert(parse_row(d) == Ok::<Seq<i32>, int>(vp.drop_first() + rest));
                assert(seq![vp[0]] + (vp.drop_first() + rest) =~= vp + rest);
            },
            Err(c) => {},
        }
    }
}

/// Parsing a grid splits at any prefix of well-parsed rows.
proof fn lemma_parse_rows_prefix(rt: Seq<Seq<Seq<u8>>>, i: int, gp: Seq<Seq<i32>>)
    requires
        0 <= i <= rt.len(),
        gp.len() == i,
        forall|r: int| 0 <= r < i ==> parse_row(#[trigger] rt[r]) == Ok::<Seq<i32>, int>(gp[r]),
    ensures
        parse_rows(rt) == match parse_rows(rt.subrange(i, rt.len() as int)) {
            Ok(rest) => Ok::<Seq<Seq<i32>>, (int, int)>(gp + rest),
            Err(rc) => Err::<Seq<Seq<i32>>, (int, int)>((rc.0 + i, rc.1)),
        },
    decreases i,
{
    if i == 0 {
        assert(rt.subrange(0, rt.len() as int) =~= rt);
        match parse_rows(rt) {
            Ok(rest) => {
                assert(gp + rest =~= rest);
            },
            Err(rc) => {},
        }
    } else {
        let d = rt.drop_first();
        assert(parse_row(rt[0]) == Ok::<Seq<i32>, int>(gp[0]));
        assert forall|r: int| 0 <= r < i - 1 implies parse_row(#[trigger] d[r]) == Ok::<
            Seq<i32>,
            int,
        >(gp.drop_first()[r]) by {
            assert(d[r] == rt[r + 1]);
            assert(gp.drop_first()[r] == gp[r + 1]);
        }
        lemma_parse_rows_prefix(d, i - 1, gp.drop_first());
        assert(d.subrange(i - 1, d.len() as int) =~= rt.subrange(i, rt.len() as int));
        match parse_rows(rt.subrange(i, rt.len() as int)) {
            Ok(rest) => {
                assert(parse_rows(d) == Ok::<Seq<Seq<i32>>, (int, int)>(gp.drop_first() + rest));
                assert(seq![gp[0]] + (gp.drop_first() + rest) =~= gp + rest);
            },
            Err(rc) => {},
        }
    }
}

/// Parses the whole input into its grid of elements, or reports the
/// coordinates of the first bad token.
pub fn parse_grid(s: &[u8]) -> (r: Result<Vec<Vec<i32>>, (usize, usize)>)
    ensures
        r matches Ok(vals) ==> spec_parse_text(s@) == Ok::<Seq<Seq<i32>>, (int, int)>(
            vals@.map_values(|row: Vec<i32>| row@),
        ),
        r matches Err(rc) ==> spec_parse_text(s@) == Err::<Seq<Seq<i32>>, (int, int)>(
            (rc.0 as int, rc.1 as int),
        ),
{
    let lines: Vec<Vec<u8>> = split_lines_exec(s);
    let ghost line_views = lines@.map_values(|l: Vec<u8>| l@);
    let mut grid_toks: Vec<Vec<Vec<u8>>> = Vec::new();
    let mut li: usize = 0;
    proof {
        reveal_with_fuel(Seq::<Seq<Seq<u8>>>::filter, 2);
        assert(line_views.take(0) =~= Seq::<Seq<u8>>::empty());
        assert(grid_toks@.map_values(|row: Vec<Vec<u8>>| row@.map_values(|t: Vec<u8>| t@))
            =~= line_views.take(0).map_values(|l: Seq<u8>| tokens_of(l)).filter(
            |toks: Seq<Seq<u8>>| toks.len() > 0,
        ));
    }
    while li < lines.len()
        invariant
            0 <= li <= lines@.len(),
            line_views == lines@.map_values(|l: Vec<u8>| l@),
            grid_toks@.map_values(|row: Vec<Vec<u8>>| row@.map_values(|t: Vec<u8>| t@))
                == line_views.take(li as int).map_values(|l: Seq<u8>| tokens_of(l)).filter(
                |toks: Seq<Seq<u8>>| toks.len() > 0,
            ),
        decreases lines@.len() - li,
    {
        let toks: Vec<Vec<u8>> = tokens_of_exec(lines[li].as_slice());
        proof {
            assert(line_views[li as int] == lines@[li as int]@);
        }
        let ghost prev = grid_toks@;
        if toks.len() > 0 {
            grid_toks.push(toks);
        }
        proof {
            let f = |l: Seq<u8>| tokens_of(l);
            let pred = |toks2: Seq<Seq<u8>>| toks2.len() > 0;
            let mapped_prev = line_views.take(li as int).map_values(f);
            let mapped_now = line_views.take(li + 1).map_values(f);
            assert(mapped_now.drop_last() =~= mapped_prev);
            assert(mapped_now.last() == tokens_of(line_views[li as int]));
            assert(mapped_now =~= mapped_prev.push(tokens_of(line_views[li as int])));
            reveal_with_fuel(Seq::<Seq<Seq<u8>>>::filter, 2);
            assert(mapped_prev.push(tokens_of(line_views[li as int])).drop_last()
                =~= mapped_prev);
            if toks.len() > 0 {
                assert(grid_toks@.map_values(
                    |row: Vec<Vec<u8>>| row@.map_values(|t: Vec<u8>| t@),
                ) =~= prev.map_values(|row: Vec<Vec<u8>>| row@.map_values(|t: Vec<u8>| t@)).push(
                    toks@.map_values(|t: Vec<u8>| t@),
                ));
                assert(mapped_now.filter(pred) =~= mapped_prev.filter(pred).push(
                    tokens_of(line_views[li as int]),
                ));
            } else {
                assert(tokens_of(line_views[li as int]).len() == 0);
                assert(mapped_now.filter(pred) =~= mapped_prev.filter(pred));
            }
        }
        li = li + 1;
    }
    proof {
        assert(line_views.take(line_views.len() as int) =~= line_views);
    }
    let ghost rt = nonblank_token_rows(s@);
    let mut vals: Vec<Vec<i32>> = Vec::new();
    let mut ri: usize = 0;
    while ri < grid_toks.len()
        invariant
            0 <= ri <= grid_toks@.len(),
            rt == grid_toks@.map_values(|row: Vec<Vec<u8>>| row@.map_values(|t: Vec<u8>| t@)),
            rt == nonblank_token_rows(s@),
            vals@.len() == ri,
            forall|r: int|
                0 <= r < ri ==> parse_row(#[trigger] rt[r]) == Ok::<Seq<i32>, int>(vals@[r]@),
        decreases grid_toks@.len() - ri,
    {
        let row_toks: &Vec<Vec<u8>> = &grid_toks[ri];
        let ghost row_tok_views = rt[ri as int];
        proof {
            assert(rt[ri as int] == grid_toks@[ri as int]@.map_values(|t: Vec<u8>| t@));
        }
        let mut row_vals: Vec<i32> = Vec::new();
        let mut ci: usize = 0;
        while ci < row_toks.len()
            invariant
                0 <= ci <= row_toks@.len(),
                row_tok_views == row_toks@.map_values(|t: Vec<u8>| t@),
                rt == nonblank_token_rows(s@),
                0 <= ri < rt.len(),
                rt[ri as int] == row_tok_views,
                vals@.len() == ri,
                forall|r: int|
                    0 <= r < ri ==> parse_row(#[trigger] rt[r]) == Ok::<Seq<i32>, int>(vals@[r]@),
                row_vals@.len() == ci,
                forall|c: int|
                    0 <= c < ci ==> spec_parse_elem(#[trigger] row_tok_views[c])
                        == Option::Some(row_vals@[c]),
            decreases row_toks@.len() - ci,
        {
            proof {
                assert(row_tok_views[ci as int] == row_toks@[ci as int]@);
            }
            match parse_elem(row_toks[ci].as_slice()) {
                Option::Some(v) => {
                    row_vals.push(v);
                },
                Option::None => {
                    proof {
                        lemma_parse_row_prefix(row_tok_views, ci as int, row_vals@);
                        let suffix = row_tok_views.subrange(
                            ci as int,
                            row_tok_views.len() as int,
                        );
                        assert(suffix[0] == row_tok_views[ci as int]);
                        assert(parse_row(row_tok_views) == Err::<Seq<i32>, int>(ci as int));
                        lemma_parse_rows_prefix(rt, ri as int, vals@.map_values(|r2: Vec<i32>| r2@));
                        let rsuffix = rt.subrange(ri as int, rt.len() as int);
                        assert(rsuffix[0] == rt[ri as int]);
                        assert(parse_rows(rt) == Err::<Seq<Seq<i32>>, (int, int)>(
                            (ri as int, ci as int),
                        ));
                    }
                    return Err((ri, ci));
                },
            }
            ci = ci + 1;
        }
        proof {
            lemma_parse_row_prefix(row_tok_views, row_tok_views.len() as int, row_vals@);
            assert(row_tok_views.subrange(row_tok_views.len() as int, row_tok_views.len() as int)
                =~= Seq::<Seq<u8>>::empty());
            assert(row_vals@ + Seq::<i32>::empty() =~= row_vals@);
            assert(parse_row(row_tok_views) == Ok::<Seq<i32>, int>(row_vals@));
        }
        vals.push(row_vals);
        ri = ri + 1;
    }
    proof {
        lemma_parse_rows_prefix(rt, rt.len() as int, vals@.map_values(|r2: Vec<i32>| r2@));
        assert(rt.subrange(rt.len() as int, rt.len() as int) =~= Seq::<Seq<Seq<u8>>>::empty());
        assert(vals@.map_values(|r2: Vec<i32>| r2@) + Seq::<Seq<i32>>::empty() =~= vals@.map_values(
            |r2: Vec<i32>| r2@,
        ));
    }
    Ok(vals)
}

/// One row's rendering without its newline: its elements, space-joined.
pub open spec fn fmt_row_body(row: Seq<i32>) -> Seq<u8>
    decreases row.len(),
{
    if row.len() == 0 {
        Seq::empty()
    } else if row.len() == 1 {
        fmt_elem(row[0])
    } else {
        fmt_row_body(row.drop_last()) + seq![32u8] + fmt_elem(row.last())
    }
}

/// The rendering of a `rows x cols` row-major array: each row
/// space-joined, with a trailing newline per row.
pub open spec fn fmt_rows(data: Seq<i32>, rows: int, cols: int) -> Seq<u8>
    decreases rows,
{
    if rows <= 0 {
        Seq::empty()
    } else {
        fmt_rows(data, rows - 1, cols) + fmt_row_body(
            data.subrange((rows - 1) * cols, rows * cols),
        ) + seq![10u8]
    }
}

/// Renders a row-major array as matrix text.
pub fn format_text(data: &Vec<i32>, rows: usize, cols: usize) -> (r: Vec<u8>)
    requires
        data@.len() == rows * cols,
    ensures
        r@ == fmt_rows(data@, rows as int, cols as int),
{
    let _dlen: usize = data.len();
    let mut out: Vec<u8> = Vec::new();
    let mut ri: usize = 0;
    proof {
        assert(out@ =~= fmt_rows(data@, 0, cols as int));
    }
    while ri < rows
        invariant
            0 <= ri <= rows,
            data@.len() == rows * cols,
            rows * cols <= usize::MAX,
            out@ == fmt_rows(data@, ri as int, cols as int),
        decreases rows - ri,
    {
        let ghost rowseq = data@.subrange(ri as int * cols, (ri + 1) * cols);
        proof {
            assert((ri + 1) * cols == ri * cols + cols) by (nonlinear_arith);
            assert(ri * cols >= 0 && (ri + 1) * cols <= rows * cols) by (nonlinear_arith)
                requires
                    0 <= ri < rows,
                    cols >= 0,
            ;
        }
        let mut ci: usize = 0;
        proof {
            assert(rowseq.take(0) =~= Seq::<i32>::empty());
        }
        while ci < cols
            invariant
                0 <= ci <= cols,
                0 <= ri < rows,
                data@.len() == rows * cols,
                rows * cols <= usize::MAX,
                ri * cols >= 0,
                ri * cols + cols <= rows * cols,
                rowseq == data@.subrange(ri as int * cols, ri as int * cols + cols),
                out@ == fmt_rows(data@, ri as int, cols as int) + fmt_row_body(
                    rowseq.take(ci as int),
                ),
            decreases cols - ci,
        {
            if ci > 0 {
                out.push(32u8);
            }
            let idx: usize = ri * cols + ci;
            let mut ev: Vec<u8> = format_elem(data[idx]);
            let ghost before = out@;
            out.append(&mut ev);
            proof {
                assert(rowseq[ci as int] == data@[ri as int * cols + ci]);
                assert(rowseq.take(ci + 1).drop_last() =~= rowseq.take(ci as int));
                assert(rowseq.take(ci + 1).last() == rowseq[ci as int]);
                if ci == 0 {
                    assert(rowseq.take(1) =~= seq![rowseq[0]]);
                    assert(out@ =~= fmt_rows(data@, ri as int, cols as int) + fmt_row_body(
                        rowseq.take(1),
                    ));
                } else {
                    assert(out@ =~= fmt_rows(data@, ri as int, cols as int) + fmt_row_body(
                        rowseq.take(ci + 1),
                    ));
                }
            }
            ci = ci + 1;
        }
        out.push(10u8);
        proof {
            assert(rowseq.take(cols as int) =~= rowseq);
            assert(rowseq =~= data@.subrange(
                (ri + 1) * cols - cols,
                (ri + 1) * cols,
            ));
            assert(out@ =~= fmt_rows(data@, ri + 1, cols as int));
        }
        ri = ri + 1;
    }
    out
}

/// An element's rendering holds no whitespace and no newline.
proof fn lemma_fmt_elem_clean(v: i32)
    ensures
        fmt_elem(v).len() >= 1,
        forall|p: int|
            0 <= p < fmt_elem(v).len() ==> !is_ws(#[trigger] fmt_elem(v)[p]) && fmt_elem(v)[p]
                != 10,
{
    if v < 0 {
        lemma_dec_digits_wf((-v) as nat);
        assert forall|p: int| 0 <= p < fmt_elem(v).len() implies !is_ws(#[trigger] fmt_elem(v)[p])
            && fmt_elem(v)[p] != 10 by {
            if p >= 1 {
                assert(fmt_elem(v)[p] == dec_digits((-v) as nat)[p - 1]);
                assert(is_digit(dec_digits((-v) as nat)[p - 1]));
            }
        }
    } else {
        lemma_dec_digits_wf(v as nat);
        assert forall|p: int| 0 <= p < fmt_elem(v).len() implies !is_ws(#[trigger] fmt_elem(v)[p])
            && fmt_elem(v)[p] != 10 by {
            assert(is_digit(fmt_elem(v)[p]));
        }
    }
}

/// A row's rendering peeled from the front instead of the back.
proof fn lemma_fmt_row_body_front(row: Seq<i32>)
    requires
        row.len() >= 1,
    ensures
        fmt_row_body(row) == if row.len() == 1 {
            fmt_elem(row[0])
        } else {
            fmt_elem(row[0]) + seq![32u8] + fmt_row_body(row.drop_first())
        },
    decreases row.len(),
{
    if row.len() == 1 {
    } else if row.len() == 2 {
        assert(row.drop_last() =~= seq![row[0]]);
        assert(row.drop_first() =~= seq![row[1]]);
        assert(fmt_row_body(seq![row[0]]) == fmt_elem(row[0]));
        assert(fmt_row_body(seq![row[1]]) == fmt_elem(row[1]));
    } else {
        lemma_fmt_row_body_front(row.drop_last());
        assert(row.drop_last()[0] == row[0]);
        assert(row.drop_last().drop_first() =~= row.drop_first().drop_last());
        assert(row.drop_first().last() == row.last());
        assert(row.drop_first().len() >= 2);
        assert(fmt_row_body(row.drop_first()) == fmt_row_body(row.drop_first().drop_last())
            + seq![32u8] + fmt_elem(row.drop_first().last()));
        assert(fmt_row_body(row) =~= fmt_elem(row[0]) + seq![32u8] + fmt_row_body(
            row.drop_first(),
        ));
    }
}

/// A row's rendering holds no newline.
proof fn lemma_fmt_row_body_no_nl(row: Seq<i32>)
    ensures
        forall|p: int| 0 <= p < fmt_row_body(row).len() ==> #[trigger] fmt_row_body(row)[p] != 10,
    decreases row.len(),
{
    if row.len() == 0 {
    } else if row.len() == 1 {
        lemma_fmt_elem_clean(row[0]);
    } else {
        lemma_fmt_row_body_no_nl(row.drop_last());
        lemma_fmt_elem_clean(row.last());
        let b1 = fmt_row_body(row.drop_last());
        let e = fmt_elem(row.last());
        assert forall|p: int| 0 <= p < fmt_row_body(row).len() implies #[trigger] fmt_row_body(
            row,
        )[p] != 10 by {
            if p < b1.len() {
                assert(fmt_row_body(row)[p] == b1[p]);
            } else if p == b1.len() {
                assert(fmt_row_body(row)[p] == 32);
            } else {
                assert(fmt_row_body(row)[p] == e[p - b1.len() - 1]);
            }
        }
    }
}

/// The tokens of a formatted row are exactly its formatted elements.
proof fn lemma_tokens_of_fmt_row(row: Seq<i32>)
    requires
        row.len() >= 1,
    ensures
        tokens_of(fmt_row_body(row)) == row.map_values(|v: i32| fmt_elem(v)),
    decreases row.len(),
{
    lemma_fmt_row_body_front(row);
    lemma_fmt_elem_clean(row[0]);
    let b = fmt_row_body(row);
    let e0 = fmt_elem(row[0]);
    assert forall|p: int| 0 <= p < e0.len() implies !is_ws(b[p]) by {
        assert(b[p] == e0[p]);
    }
    if row.len() == 1 {
        lemma_find_ws_at(b, b.len() as int);
        assert(tokens_of(b) == seq![b.take(b.len() as int)] + tokens_of(
            b.subrange(b.len() as int, b.len() as int),
        ));
        assert(b.take(b.len() as int) =~= e0);
        assert(b.subrange(b.len() as int, b.len() as int) =~= Seq::<u8>::empty());
        assert(seq![e0] + Seq::<Seq<u8>>::empty() =~= seq![e0]);
        assert(row.map_values(|v: i32| fmt_elem(v)) =~= seq![e0]);
    } else {
        assert(b[e0.len() as int] == 32);
        lemma_find_ws_at(b, e0.len() as int);
        let rest = b.subrange(e0.len() as int, b.len() as int);
        assert(tokens_of(b) == seq![b.take(e0.len() as int)] + tokens_of(rest));
        assert(b.take(e0.len() as int) =~= e0);
        assert(rest[0] == 32);
        assert(rest.drop_first() =~= fmt_row_body(row.drop_first()));
        lemma_tokens_of_fmt_row(row.drop_first());
        assert(seq![e0] + row.drop_first().map_values(|v: i32| fmt_elem(v)) =~= row.map_values(
            |v: i32| fmt_elem(v),
        ));
    }
}

/// Splitting peels off a leading newline-free segment.
proof fn lemma_split_lines_prepend(x: Seq<u8>, rest: Seq<u8>)
    requires
        forall|p: int| 0 <= p < x.len() ==> #[trigger] x[p] != 10,
    ensures
        split_lines(x + seq![10u8] + rest) == seq![x] + split_lines(rest),
{
    let s = x + seq![10u8] + rest;
    assert forall|p: int| 0 <= p < x.len() implies s[p] != 10 by {
        assert(s[p] == x[p]);
    }
    assert(s[x.len() as int] == 10);
    lemma_find_nl_at(s, x.len() as int);
    assert(s.take(x.len() as int) =~= x);
    assert(s.subrange(x.len() as int + 1, s.len() as int) =~= rest);
}

/// The rows of a flat row-major array, as a grid.
pub open spec fn rows_of(data: Seq<i32>, rows: int, cols: int) -> Seq<Seq<i32>> {
    Seq::new(rows as nat, |r: int| data.subrange(r * cols, r * cols + cols))
}

/// Formatting, peeled from the front: the rows from `r0` on.
spec fn fmt_rows_from(data: Seq<i32>, r0: int, rows: int, cols: int) -> Seq<u8>
    decreases rows - r0,
{
    if r0 >= rows {
        Seq::empty()
    } else {
        fmt_row_body(data.subrange(r0 * cols, r0 * cols + cols)) + seq![10u8] + fmt_rows_from(
            data,
            r0 + 1,
            rows,
            cols,
        )
    }
}

proof fn lemma_fmt_rows_from_append(data: Seq<i32>, r0: int, rows: int, cols: int)
    requires
        r0 < rows,
    ensures
        fmt_rows_from(data, r0, rows, cols) == fmt_rows_from(data, r0, rows - 1, cols)
            + fmt_row_body(data.subrange((rows - 1) * cols, rows * cols)) + seq![10u8],
    decreases rows - r0,
{
    assert(rows * cols == (rows - 1) * cols + cols) by (nonlinear_arith);
    if r0 == rows - 1 {
        assert(fmt_rows_from(data, rows, rows, cols) =~= Seq::<u8>::empty());
        assert(fmt_rows_from(data, r0, rows - 1, cols) =~= Seq::<u8>::empty());
        assert(fmt_rows_from(data, r0, rows, cols) =~= fmt_row_body(
            data.subrange((rows - 1) * cols, (rows - 1) * cols + cols),
        ) + seq![10u8]);
        assert(fmt_rows_from(data, r0, rows - 1, cols) + fmt_row_body(
            data.subrange((rows - 1) * cols, rows * cols),
        ) + seq![10u8] =~= fmt_row_body(
            data.subrange((rows - 1) * cols, (rows - 1) * cols + cols),
        ) + seq![10u8]);
    } else {
        lemma_fmt_rows_from_append(data, r0 + 1, rows, cols);
        assert(fmt_rows_from(data, r0, rows, cols) =~= fmt_rows_from(data, r0, rows - 1, cols)
            + fmt_row_body(data.subrange((rows - 1) * cols, rows * cols)) + seq![10u8]);
    }
}

/// The back-recursive and front-recursive renderings agree.
proof fn lemma_fmt_rows_eq(data: Seq<i32>, rows: int, cols: int)
    requires
        rows >= 0,
    ensures
        fmt_rows(data, rows, cols) == fmt_rows_from(data, 0, rows, cols),
    decreases rows,
{
    if rows > 0 {
        lemma_fmt_rows_eq(data, rows - 1, cols);
        lemma_fmt_rows_from_append(data, 0, rows, cols);
        assert(rows * cols == (rows - 1) * cols + cols) by (nonlinear_arith);
    }
}

/// The lines of a rendering: one newline-free body per row, then one
/// final empty segment from the trailing newline.
proof fn lemma_split_lines_fmt_from(data: Seq<i32>, r0: int, rows: int, cols: int)
    requires
        0 <= r0 <= rows,
    ensures
        split_lines(fmt_rows_from(data, r0, rows, cols)) == Seq::new(
            (rows - r0) as nat,
            |q: int| fmt_row_body(data.subrange((r0 + q) * cols, (r0 + q) * cols + cols)),
        ) + seq![Seq::<u8>::empty()],
    decreases rows - r0,
{
    if r0 == rows {
        assert(fmt_rows_from(data, r0, rows, cols) =~= Seq::<u8>::empty());
        assert(split_lines(Seq::<u8>::empty()) == seq![Seq::<u8>::empty()]);
        assert(Seq::new(0, |q: int| fmt_row_body(data.subrange((r0 + q) * cols, (r0 + q) * cols
            + cols))) + seq![Seq::<u8>::empty()] =~= seq![Seq::<u8>::empty()]);
    } else {
        let body = fmt_row_body(data.subrange(r0 * cols, r0 * cols + cols));
        lemma_fmt_row_body_no_nl(data.subrange(r0 * cols, r0 * cols + cols));
        lemma_split_lines_prepend(body, fmt_rows_from(data, r0 + 1, rows, cols));
        lemma_split_lines_fmt_from(data, r0 + 1, rows, cols);
        assert(seq![body] + (Seq::new((rows - r0 - 1) as nat, |q: int| fmt_row_body(
            data.subrange((r0 + 1 + q) * cols, (r0 + 1 + q) * cols + cols),
        )) + seq![Seq::<u8>::empty()]) =~= Seq::new((rows - r0) as nat, |q: int| fmt_row_body(
            data.subrange((r0 + q) * cols, (r0 + q) * cols + cols),
        )) + seq![Seq::<u8>::empty()]);
    }
}

/// Parsing a row of formatted elements gives the elements back.
proof fn lemma_parse_row_fmt(row: Seq<i32>)
    ensures
        parse_row(row.map_values(|v: i32| fmt_elem(v))) == Ok::<Seq<i32>, int>(row),
    decreases row.len(),
{
    let toks = row.map_values(|v: i32| fmt_elem(v));
    if row.len() == 0 {
        assert(row =~= Seq::<i32>::empty());
    } else {
        lemma_parse_fmt_elem(row[0]);
        assert(toks[0] == fmt_elem(row[0]));
        lemma_parse_row_fmt(row.drop_first());
        assert(toks.drop_first() =~= row.drop_first().map_values(|v: i32| fmt_elem(v)));
        assert(seq![row[0]] + row.drop_first() =~= row);
    }
}

/// Parsing the formatted rows of a grid gives the grid back.
proof fn lemma_parse_rows_fmt(g: Seq<Seq<i32>>)
    ensures
        parse_rows(g.map_values(|row: Seq<i32>| row.map_values(|v: i32| fmt_elem(v))))
            == Ok::<Seq<Seq<i32>>, (int, int)>(g),
    decreases g.len(),
{
    let rt = g.map_values(|row: Seq<i32>| row.map_values(|v: i32| fmt_elem(v)));
    if g.len() == 0 {
        assert(g =~= Seq::<Seq<i32>>::empty());
    } else {
        lemma_parse_row_fmt(g[0]);
        assert(rt[0] == g[0].map_values(|v: i32| fmt_elem(v)));
        lemma_parse_rows_fmt(g.drop_first());
        assert(rt.drop_first() =~= g.drop_first().map_values(
            |row: Seq<i32>| row.map_values(|v: i32| fmt_elem(v)),
        ));
        assert(seq![g[0]] + g.drop_first() =~= g);
    }
}

/// A sequence of rows that all pass the non-blank test is kept whole
/// by the filter, and a trailing blank row is dropped.
proof fn lemma_filter_all_nonblank(a: Seq<Seq<Seq<u8>>>)
    requires
        forall|r: int| 0 <= r < a.len() ==> (#[trigger] a[r]).len() > 0,
    ensures
        a.filter(|toks: Seq<Seq<u8>>| toks.len() > 0) == a,
    decreases a.len(),
{
    reveal_with_fuel(Seq::<Seq<Seq<u8>>>::filter, 2);
    if a.len() == 0 {
    } else {
        assert forall|r: int|
            0 <= r < a.drop_last().len() implies (#[trigger] a.drop_last()[r]).len() > 0 by {
            assert(a.drop_last()[r] == a[r]);
        }
        lemma_filter_all_nonblank(a.drop_last());
        assert(a.drop_last().filter(|toks: Seq<Seq<u8>>| toks.len() > 0).push(a.last()) =~= a);
    }
}

/// Flattening the rows of a flat array gives the array back.
proof fn lemma_flatten_rows_of(data: Seq<i32>, rows: int, cols: int)
    requires
        0 <= rows,
        0 <= cols,
        rows * cols <= data.len(),
    ensures
        flatten_grid(rows_of(data, rows, cols)) == data.take(rows * cols),
    decreases rows,
{
    if rows == 0 {
        assert(rows_of(data, 0, cols) =~= Seq::<Seq<i32>>::empty());
        assert(data.take(0) =~= Seq::<i32>::empty());
        assert(flatten_grid(rows_of(data, 0, cols)) == data.take(0));
        assert(rows * cols == 0) by (nonlinear_arith)
            requires
                rows == 0,
        ;
    } else {
        assert((rows - 1) * cols + cols == rows * cols) by (nonlinear_arith);
        assert((rows - 1) * cols >= 0 && (rows - 1) * cols <= rows * cols) by (nonlinear_arith)
            requires
                rows >= 1,
                cols >= 0,
        ;
        lemma_flatten_rows_of(data, rows - 1, cols);
        let g = rows_of(data, rows, cols);
        assert(g.drop_last() =~= rows_of(data, rows - 1, cols));
        assert(g.last() == data.subrange((rows - 1) * cols, (rows - 1) * cols + cols));
        assert(flatten_grid(g) == flatten_grid(g.drop_last()) + g.last());
        assert(flatten_grid(g.drop_last()) == data.take((rows - 1) * cols));
        assert(data.take((rows - 1) * cols) + data.subrange((rows - 1) * cols, rows * cols)
            =~= data.take(rows * cols));
    }
}

/// The format/parse round trip: parsing the rendering of any
/// `rows x cols` row-major array reproduces exactly its grid of rows —
/// same dimensions, same elements, no shape error.
pub proof fn lemma_format_parse_round_trip(data: Seq<i32>, rows: int, cols: int)
    requires
        rows >= 1,
        cols >= 1,
        data.len() == rows * cols,
    ensures
        spec_parse_text(fmt_rows(data, rows, cols)) == Ok::<Seq<Seq<i32>>, (int, int)>(
            rows_of(data, rows, cols),
        ),
        rows_wf(rows_of(data, rows, cols)),
        rows_of(data, rows, cols).len() == rows,
        rows_of(data, rows, cols)[0].len() == cols,
        flatten_grid(rows_of(data, rows, cols)) == data,
{
    let g = rows_of(data, rows, cols);
    let s = fmt_rows(data, rows, cols);
    lemma_fmt_rows_eq(data, rows, cols);
    lemma_split_lines_fmt_from(data, 0, rows, cols);
    let bodies = Seq::new(rows as nat, |q: int| fmt_row_body(data.subrange(q * cols, q * cols
        + cols)));
    assert(split_lines(s) == bodies + seq![Seq::<u8>::empty()]);
    assert forall|r: int| 0 <= r < rows implies (#[trigger] g[r]).len() == cols by {
        assert(0 <= r * cols && r * cols + cols <= rows * cols) by (nonlinear_arith)
            requires
                0 <= r < rows,
                cols >= 1,
        ;
    }
    assert(rows_wf(g));
    let mapped = split_lines(s).map_values(|l: Seq<u8>| tokens_of(l));
    let token_grid = g.map_values(|row: Seq<i32>| row.map_values(|v: i32| fmt_elem(v)));
    assert forall|r: int| 0 <= r < rows implies mapped[r] == token_grid[r] by {
        assert(mapped[r] == tokens_of(bodies[r]));
        assert(0 <= r * cols && r * cols + cols <= rows * cols) by (nonlinear_arith)
            requires
                0 <= r < rows,
                cols >= 1,
        ;
        lemma_tokens_of_fmt_row(data.subrange(r * cols, r * cols + cols));
        assert(g[r] == data.subrange(r * cols, r * cols + cols));
    }
    assert(mapped[rows as int] == tokens_of(Seq::<u8>::empty()));
    assert(tokens_of(Seq::<u8>::empty()) =~= Seq::<Seq<u8>>::empty());
    assert(mapped =~= token_grid.push(Seq::<Seq<u8>>::empty()));
    assert forall|r: int| 0 <= r < token_grid.len() implies (#[trigger] token_grid[r]).len()
        > 0 by {
        assert(token_grid[r] == g[r].map_values(|v: i32| fmt_elem(v)));
    }
    reveal_with_fuel(Seq::<Seq<Seq<u8>>>::filter, 2);
    assert(token_grid.push(Seq::<Seq<u8>>::empty()).drop_last() =~= token_grid);
    lemma_filter_all_nonblank(token_grid);
    assert(nonblank_token_rows(s) == token_grid);
    lemma_parse_rows_fmt(g);
    lemma_flatten_rows_of(data, rows, cols);
    assert(data.take(rows * cols) =~= data);
}

impl<B: Backend> Matrix<B> {
    /// Renders the matrix as text: each row's elements space-joined,
    /// with a trailing newline per row, in row-major order.
    pub fn to_text(&self, ctx: &B::Ctx) -> (r: Result<Vec<u8>, MatrixError<B::Err>>)
        requires
            self.wf(),
        ensures
            B::supported() ==> r is Ok,
            r matches Ok(v) ==> v@ == fmt_rows(self.view_data(), self.spec_rows(), self.spec_cols()),
            r is Err ==> r matches Err(MatrixError::Backend(_)),
    {
        match self.to_host(ctx) {
            Ok(data) => {
                let (rows, cols) = self.shape();
                Ok(format_text(&data, rows, cols))
            },
            Err(e) => Err(e),
        }
    }

    /// Parses matrix text: blank lines are ignored; a malformed token
    /// fails with its 0-based row (among non-blank lines) and column; a
    /// token grid that is empty or jagged fails with a shape error.
    pub fn parse_text(ctx: &B::Ctx, s: &[u8]) -> (r: Result<Self, MatrixError<B::Err>>)
        ensures
            spec_parse_text(s@) matches Err(rc) ==> r == Err::<Self, MatrixError<B::Err>>(
                MatrixError::Parse { row: rc.0 as usize, col: rc.1 as usize },
            ),
            spec_parse_text(s@) matches Ok(grid) ==> {
                &&& (!rows_wf(grid) <==> r matches Err(MatrixError::Shape))
                &&& (B::supported() && rows_wf(grid) ==> r is Ok)
                &&& (rows_wf(grid) && r is Err ==> r matches Err(MatrixError::Backend(_)))
                &&& (r matches Ok(mat) ==> {
                    &&& mat.wf()
                    &&& mat.spec_rows() == grid.len()
                    &&& mat.spec_cols() == grid[0].len()
                    &&& mat.view_data() == flatten_grid(grid)
                })
            },
    {
        match parse_grid(s) {
            Err((row, col)) => Err(MatrixError::Parse { row, col }),
            Ok(vals) => {
                proof {
                    assert(vals@.map_values(|row: Vec<i32>| row@) == spec_parse_text(
                        s@,
                    )->Ok_0);
                }
                Matrix::from_rows(ctx, &vals)
            },
        }
    }
}

} // verus!

verus! {

impl core::str::FromStr for Matrix<CPU> {
    type Err = MatrixError<BackendFailure>;

    /// Parses matrix text from a string slice; see `parse_text`.
    fn from_str(s: &str) -> (r: Result<Self, MatrixError<BackendFailure>>)
        ensures
            spec_parse_text(s.spec_bytes()) matches Err(rc) ==> r == Err::<
                Self,
                MatrixError<BackendFailure>,
            >(MatrixError::Parse { row: rc.0 as usize, col: rc.1 as usize }),
            spec_parse_text(s.spec_bytes()) matches Ok(grid) ==> {
                &&& (!rows_wf(grid) <==> r matches Err(MatrixError::Shape))
                &&& (rows_wf(grid) ==> r is Ok)
                &&& (r matches Ok(mat) ==> {
                    &&& mat.wf()
                    &&& mat.spec_rows() == grid.len()
                    &&& mat.spec_cols() == grid[0].len()
                    &&& mat.view_data() == flatten_grid(grid)
                })
            },
    {
        Matrix::parse_text(&(), s.as_bytes())
    }
}

} // verus!
