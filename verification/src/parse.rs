//! The workload language parser.
//!
//! The textual grammar, informally:
//!
//! ```text
//! workload   := ws ("Seed:" ws uint ";" ws)? section+
//! section    := ("Ordered" | "Unordered") "[" uint "]" "{" (freq command ";")* "}"
//! freq       := "<" uint "%>"
//! command    := "New(" bytes ")" | "OverWrite(" bytes ")"
//!             | "Get" | "Get(" uint "," uint ")"
//!             | "Delete" | "Delete(" uint "," uint ")"
//!             | "DeleteRange(" uint "," uint ")"
//! bytes      := uint | uint ("K"|"M"|"G")
//! ```
//!
//! Whitespace and `#`-to-end-of-line comments are insignificant between
//! tokens.  Parsing is total and side-effect-free: each executable
//! function returns exactly what its specification twin describes, so the
//! same text always yields the same value.  Numeric overflow (a value
//! that does not fit the carrying type) is a parse failure, not a panic.
//!
//! Positions are byte offsets into the input; a parser returns the value
//! it recognised together with the position just after it, or `None`.

use crate::{Bytes, Command, CommandV, Freq, Section, SectionV, Statement, SyntaxError, Workload,
    WorkloadV};
use vstd::prelude::*;

verus! {

/// An ASCII whitespace byte (space, tab, line feed, vertical tab, form
/// feed or carriage return), as the insignificant-space rule accepts it.
pub open spec fn is_space(c: u8) -> bool {
    c == 32 || (9 <= c <= 13)
}

/// An ASCII decimal digit.
pub open spec fn is_digit(c: u8) -> bool {
    48 <= c <= 57
}

/// The position after the whitespace run starting at `i`.
pub open spec fn spec_skip_spaces(s: Seq<u8>, i: int) -> int
    decreases s.len() - i,
{
    if 0 <= i < s.len() && is_space(s[i]) {
        spec_skip_spaces(s, i + 1)
    } else {
        i
    }
}

proof fn lemma_skip_spaces_bounds(s: Seq<u8>, i: int)
    requires
        0 <= i <= s.len(),
    ensures
        i <= spec_skip_spaces(s, i) <= s.len(),
    decreases s.len() - i,
{
    if i < s.len() && is_space(s[i]) {
        lemma_skip_spaces_bounds(s, i + 1);
    }
}

/// The position of the next line feed at or after `i` (the comment rule:
/// a `#` comment runs to the end of the line, not consuming the line
/// feed), or the end of the input.
pub open spec fn spec_line_end(s: Seq<u8>, i: int) -> int
    decreases s.len() - i,
{
    if 0 <= i < s.len() && s[i] != 10 {
        spec_line_end(s, i + 1)
    } else {
        i
    }
}

proof fn lemma_line_end_bounds(s: Seq<u8>, i: int)
    requires
        0 <= i <= s.len(),
    ensures
        i <= spec_line_end(s, i) <= s.len(),
    decreases s.len() - i,
{
    if i < s.len() && s[i] != 10 {
        lemma_line_end_bounds(s, i + 1);
    }
}

/// The position after any run of whitespace and `#` line comments
/// starting at `i`.
pub open spec fn spec_skip_ws(s: Seq<u8>, i: int) -> int
    decreases s.len() - i,
    when 0 <= i <= s.len()
    via spec_skip_ws_decreases
{
    let j = spec_skip_spaces(s, i);
    if j < s.len() && s[j] == 35 {  // '#'
        spec_skip_ws(s, spec_line_end(s, j))
    } else {
        j
    }
}

/// At a byte that is not a line feed, the line runs at least one byte
/// further.
proof fn lemma_line_end_progress(s: Seq<u8>, j: int)
    requires
        0 <= j < s.len(),
        s[j] != 10,
    ensures
        j < spec_line_end(s, j) <= s.len(),
{
    lemma_line_end_bounds(s, j + 1);
    assert(spec_line_end(s, j) == spec_line_end(s, j + 1));
}

#[via_fn]
proof fn spec_skip_ws_decreases(s: Seq<u8>, i: int) {
    lemma_skip_spaces_bounds(s, i);
    let j = spec_skip_spaces(s, i);
    if j < s.len() && s[j] == 35 {
        lemma_line_end_progress(s, j);
    }
}

proof fn lemma_skip_ws_bounds(s: Seq<u8>, i: int)
    requires
        0 <= i <= s.len(),
    ensures
        i <= spec_skip_ws(s, i) <= s.len(),
    decreases s.len() - i,
{
    lemma_skip_spaces_bounds(s, i);
    let j = spec_skip_spaces(s, i);
    if j < s.len() && s[j] == 35 {
        lemma_line_end_progress(s, j);
        lemma_skip_ws_bounds(s, spec_line_end(s, j));
    }
}

/// Skips whitespace.
fn skip_spaces(s: &[u8], pos: usize) -> (r: usize)
    requires
        pos <= s@.len(),
    ensures
        r as int == spec_skip_spaces(s@, pos as int),
        pos <= r <= s@.len(),
{
    let mut i = pos;
    let n = s.len();
    while i < n && (s[i] == 32 || (9 <= s[i] && s[i] <= 13))
        invariant
            pos <= i <= n,
            n == s@.len(),
            spec_skip_spaces(s@, pos as int) == spec_skip_spaces(s@, i as int),
        decreases n - i,
    {
        i = i + 1;
    }
    proof {
        lemma_skip_spaces_bounds(s@, i as int);
    }
    i
}

/// A `#` line comment: consumes up to, but not including, the next line
/// feed (or to the end of the input); fails if the byte at `pos` is not
/// `#`.
pub open spec fn spec_line_comment(s: Seq<u8>, i: int) -> Option<int> {
    if 0 <= i < s.len() && s[i] == 35 {
        Some(spec_line_end(s, i))
    } else {
        None
    }
}

/// Parses a `#` line comment, returning the position after it.
pub fn parse_line_comment(s: &[u8], pos: usize) -> (r: Option<usize>)
    requires
        pos <= s@.len(),
    ensures
        r is Some <==> spec_line_comment(s@, pos as int) is Some,
        r is Some ==> r->0 as int == spec_line_comment(s@, pos as int)->0,
{
    let n = s.len();
    if pos < n && s[pos] == 35 {
        let mut i = pos;
        while i < n && s[i] != 10
            invariant
                pos <= i <= n,
                n == s@.len(),
                spec_line_end(s@, pos as int) == spec_line_end(s@, i as int),
            decreases n - i,
        {
            i = i + 1;
        }
        Some(i)
    } else {
        None
    }
}

/// Skips any run of whitespace and `#` line comments.
pub fn spaces_with_comments(s: &[u8], pos: usize) -> (r: usize)
    requires
        pos <= s@.len(),
    ensures
        r as int == spec_skip_ws(s@, pos as int),
        pos <= r <= s@.len(),
    decreases s@.len() - pos,
{
    let j = skip_spaces(s, pos);
    if j < s.len() && s[j] == 35 {
        let mut i = j;
        let n = s.len();
        while i < n && s[i] != 10
            invariant
                j <= i <= n,
                n == s@.len(),
                spec_line_end(s@, j as int) == spec_line_end(s@, i as int),
            decreases n - i,
        {
            i = i + 1;
        }
        proof {
            lemma_skip_ws_bounds(s@, i as int);
        }
        spaces_with_comments(s, i)
    } else {
        proof {
            lemma_skip_ws_bounds(s@, pos as int);
        }
        j
    }
}

/// The position after the digit run starting at `i`.
pub open spec fn digit_run_end(s: Seq<u8>, i: int) -> int
    decreases s.len() - i,
{
    if 0 <= i < s.len() && is_digit(s[i]) {
        digit_run_end(s, i + 1)
    } else {
        i
    }
}

proof fn lemma_digit_run_bounds(s: Seq<u8>, i: int)
    requires
        0 <= i <= s.len(),
    ensures
        i <= digit_run_end(s, i) <= s.len(),
        forall|k: int| i <= k < digit_run_end(s, i) ==> is_digit(#[trigger] s[k]),
    decreases s.len() - i,
{
    if i < s.len() && is_digit(s[i]) {
        lemma_digit_run_bounds(s, i + 1);
    }
}

/// The value of the decimal digits `s[i..end)`, most significant first.
pub open spec fn digits_value(s: Seq<u8>, i: int, end: int) -> int
    decreases end - i,
{
    if i < end {
        digits_value(s, i, end - 1) * 10 + (s[end - 1] - 48)
    } else {
        0
    }
}

/// Over a digit run the value is non-negative and never shrinks as the
/// run extends.
proof fn lemma_digits_value_mono(s: Seq<u8>, i: int, a: int, b: int)
    requires
        0 <= i <= a <= b <= s.len(),
        forall|k: int| i <= k < b ==> is_digit(#[trigger] s[k]),
    ensures
        0 <= digits_value(s, i, a) <= digits_value(s, i, b),
    decreases b - a,
{
    if a == b {
        lemma_digits_value_nonneg(s, i, a);
    } else {
        lemma_digits_value_mono(s, i, a, b - 1);
        lemma_digits_value_nonneg(s, i, b - 1);
    }
}

proof fn lemma_digits_value_nonneg(s: Seq<u8>, i: int, end: int)
    requires
        0 <= i <= end <= s.len(),
        forall|k: int| i <= k < end ==> is_digit(#[trigger] s[k]),
    ensures
        0 <= digits_value(s, i, end),
    decreases end - i,
{
    if i < end {
        lemma_digits_value_nonneg(s, i, end - 1);
    }
}

/// An unsigned decimal number no greater than `max`: at least one digit,
/// the whole digit run consumed; a value beyond `max` is a failure.
pub open spec fn spec_parse_num(s: Seq<u8>, i: int, max: int) -> Option<(int, int)> {
    let end = digit_run_end(s, i);
    if end == i {
        None
    } else {
        let v = digits_value(s, i, end);
        if v <= max {
            Some((v, end))
        } else {
            None
        }
    }
}

/// Parses an unsigned decimal number no greater than `max`.
fn parse_num(s: &[u8], pos: usize, max: u128) -> (r: Option<(u128, usize)>)
    requires
        pos <= s@.len(),
        max <= u64::MAX as u128,
    ensures
        r is Some <==> spec_parse_num(s@, pos as int, max as int) is Some,
        r is Some ==> ((r->0).0 as int, (r->0).1 as int) == spec_parse_num(
            s@,
            pos as int,
            max as int,
        )->0,
        r is Some ==> pos < (r->0).1 <= s@.len(),
{
    let n = s.len();
    let mut end = pos;
    while end < n && 48 <= s[end] && s[end] <= 57
        invariant
            pos <= end <= n,
            n == s@.len(),
            digit_run_end(s@, pos as int) == digit_run_end(s@, end as int),
        decreases n - end,
    {
        end = end + 1;
    }
    proof {
        lemma_digit_run_bounds(s@, pos as int);
    }
    if end == pos {
        return None;
    }
    let mut i = pos;
    let mut val: u128 = 0;
    while i < end
        invariant
            pos <= i <= end <= n,
            n == s@.len(),
            end as int == digit_run_end(s@, pos as int),
            val as int == digits_value(s@, pos as int, i as int),
            val <= max,
            max <= u64::MAX as u128,
        decreases end - i,
    {
        proof {
            lemma_digit_run_bounds(s@, pos as int);
        }
        let d = (s[i] - 48) as u128;
        let nv = val * 10 + d;
        if nv > max {
            proof {
                lemma_digits_value_mono(s@, pos as int, i as int + 1, end as int);
            }
            return None;
        }
        val = nv;
        i = i + 1;
    }
    Some((val, end))
}

/// The bytes of the keyword `New`.
pub open spec fn kw_new() -> Seq<u8> {
    seq![78u8, 101u8, 119u8]
}

/// The bytes of the keyword `OverWrite`.
pub open spec fn kw_overwrite() -> Seq<u8> {
    seq![79u8, 118u8, 101u8, 114u8, 87u8, 114u8, 105u8, 116u8, 101u8]
}

/// The bytes of the keyword `Get`.
pub open spec fn kw_get() -> Seq<u8> {
    seq![71u8, 101u8, 116u8]
}

/// The bytes of the keyword `Delete`.
pub open spec fn kw_delete() -> Seq<u8> {
    seq![68u8, 101u8, 108u8, 101u8, 116u8, 101u8]
}

/// The bytes of the keyword `DeleteRange`.
pub open spec fn kw_delete_range() -> Seq<u8> {
    seq![68u8, 101u8, 108u8, 101u8, 116u8, 101u8, 82u8, 97u8, 110u8, 103u8, 101u8]
}

/// The bytes of the keyword `Ordered`.
pub open spec fn kw_ordered() -> Seq<u8> {
    seq![79u8, 114u8, 100u8, 101u8, 114u8, 101u8, 100u8]
}

/// The bytes of the keyword `Unordered`.
pub open spec fn kw_unordered() -> Seq<u8> {
    seq![85u8, 110u8, 111u8, 114u8, 100u8, 101u8, 114u8, 101u8, 100u8]
}

/// The bytes of the keyword `Seed:`.
pub open spec fn kw_seed() -> Seq<u8> {
    seq![83u8, 101u8, 101u8, 100u8, 58u8]
}

/// The bytes of the token `%>`.
pub open spec fn kw_pct_close() -> Seq<u8> {
    seq![37u8, 62u8]
}

/// The input holds exactly the bytes of `pat` at position `i`.
pub open spec fn spec_match_at(s: Seq<u8>, i: int, pat: Seq<u8>) -> bool {
    &&& 0 <= i
    &&& i + pat.len() <= s.len()
    &&& s.subrange(i, i + pat.len()) == pat
}

/// Matched bytes can be read back element by element.
proof fn lemma_match_at_bytes(s: Seq<u8>, i: int, pat: Seq<u8>)
    requires
        spec_match_at(s, i, pat),
    ensures
        forall|k: int| 0 <= k < pat.len() ==> s[i + k] == #[trigger] pat[k],
{
    assert forall|k: int| 0 <= k < pat.len() implies s[i + k] == #[trigger] pat[k] by {
        assert(s.subrange(i, i + pat.len())[k] == s[i + k]);
    }
}

/// Whether the input holds the bytes of `pat` at position `pos`.
fn match_at(s: &[u8], pos: usize, pat: &Vec<u8>) -> (r: bool)
    requires
        pos <= s@.len(),
    ensures
        r == spec_match_at(s@, pos as int, pat@),
{
    let m = pat.len();
    if s.len() - pos < m {
        return false;
    }
    let mut k: usize = 0;
    while k < m
        invariant
            k <= m,
            m == pat@.len(),
            pos + m <= s@.len(),
            s@.len() <= usize::MAX,
            forall|t: int| 0 <= t < k ==> s@[pos + t] == #[trigger] pat@[t],
        decreases m - k,
    {
        if s[pos + k] != pat[k] {
            proof {
                if spec_match_at(s@, pos as int, pat@) {
                    lemma_match_at_bytes(s@, pos as int, pat@);
                }
            }
            return false;
        }
        k = k + 1;
    }
    proof {
        assert(s@.subrange(pos as int, pos as int + m as int) =~= pat@);
    }
    true
}

/// The bytes of `New` as a vector.
fn kw_new_vec() -> (r: Vec<u8>)
    ensures
        r@ == kw_new(),
{
    let mut v: Vec<u8> = Vec::new();
    v.push(78);
    v.push(101);
    v.push(119);
    proof {
        assert(v@ =~= kw_new());
    }
    v
}

/// The bytes of `OverWrite` as a vector.
fn kw_overwrite_vec() -> (r: Vec<u8>)
    ensures
        r@ == kw_overwrite(),
{
    let mut v: Vec<u8> = Vec::new();
    v.push(79);
    v.push(118);
    v.push(101);
    v.push(114);
    v.push(87);
    v.push(114);
    v.push(105);
    v.push(116);
    v.push(101);
    proof {
        assert(v@ =~= kw_overwrite());
    }
    v
}

/// The bytes of `Get` as a vector.
fn kw_get_vec() -> (r: Vec<u8>)
    ensures
        r@ == kw_get(),
{
    let mut v: Vec<u8> = Vec::new();
    v.push(71);
    v.push(101);
    v.push(116);
    proof {
        assert(v@ =~= kw_get());
    }
    v
}

/// The bytes of `Delete` as a vector.
fn kw_delete_vec() -> (r: Vec<u8>)
    ensures
        r@ == kw_delete(),
{
    let mut v: Vec<u8> = Vec::new();
    v.push(68);
    v.push(101);
    v.push(108);
    v.push(101);
    v.push(116);
    v.push(101);
    proof {
        assert(v@ =~= kw_delete());
    }
    v
}

/// The bytes of `DeleteRange` as a vector.
fn kw_delete_range_vec() -> (r: Vec<u8>)
    ensures
        r@ == kw_delete_range(),
{
    let mut v: Vec<u8> = kw_delete_vec();
    v.push(82);
    v.push(97);
    v.push(110);
    v.push(103);
    v.push(101);
    proof {
        assert(v@ =~= kw_delete_range());
    }
    v
}

/// The bytes of `Ordered` as a vector.
fn kw_ordered_vec() -> (r: Vec<u8>)
    ensures
        r@ == kw_ordered(),
{
    let mut v: Vec<u8> = Vec::new();
    v.push(79);
    v.push(114);
    v.push(100);
    v.push(101);
    v.push(114);
    v.push(101);
    v.push(100);
    proof {
        assert(v@ =~= kw_ordered());
    }
    v
}

/// The bytes of `Unordered` as a vector.
fn kw_unordered_vec() -> (r: Vec<u8>)
    ensures
        r@ == kw_unordered(),
{
    let mut v: Vec<u8> = Vec::new();
    v.push(85);
    v.push(110);
    v.push(111);
    v.push(114);
    v.push(100);
    v.push(101);
    v.push(114);
    v.push(101);
    v.push(100);
    proof {
        assert(v@ =~= kw_unordered());
    }
    v
}

/// The bytes of `Seed:` as a vector.
fn kw_seed_vec() -> (r: Vec<u8>)
    ensures
        r@ == kw_seed(),
{
    let mut v: Vec<u8> = Vec::new();
    v.push(83);
    v.push(101);
    v.push(101);
    v.push(100);
    v.push(58);
    proof {
        assert(v@ =~= kw_seed());
    }
    v
}

/// The bytes of `%>` as a vector.
fn kw_pct_close_vec() -> (r: Vec<u8>)
    ensures
        r@ == kw_pct_close(),
{
    let mut v: Vec<u8> = Vec::new();
    v.push(37);
    v.push(62);
    proof {
        assert(v@ =~= kw_pct_close());
    }
    v
}

/// A byte count with a capacity suffix: digits followed by `K`, `M` or
/// `G`, multiplying by 1024, 1024² or 1024³.  A product beyond the
/// machine's byte-count range is a failure.
pub open spec fn spec_parse_bytes_with_suffix(s: Seq<u8>, i: int) -> Option<(int, int)> {
    let end = digit_run_end(s, i);
    if end == i {
        None
    } else if end < s.len() && (s[end] == 75 || s[end] == 77 || s[end] == 71) {
        let v = digits_value(s, i, end);
        let mult: int = if s[end] == 75 {
            1024
        } else if s[end] == 77 {
            1048576
        } else {
            1073741824
        };
        if v * mult <= usize::MAX as int {
            Some((v * mult, end + 1))
        } else {
            None
        }
    } else {
        None
    }
}

/// A byte count: with a capacity suffix if one follows the digits, a
/// plain number otherwise.
pub open spec fn spec_parse_bytes(s: Seq<u8>, i: int) -> Option<(int, int)> {
    match spec_parse_bytes_with_suffix(s, i) {
        Some(r) => Some(r),
        None => spec_parse_num(s, i, usize::MAX as int),
    }
}

/// Parses a byte count with a capacity suffix (`12K`, `42M`, `1G`).
pub fn parse_bytes_with_suffix(s: &[u8], pos: usize) -> (r: Option<(Bytes, usize)>)
    requires
        pos <= s@.len(),
    ensures
        r is Some <==> spec_parse_bytes_with_suffix(s@, pos as int) is Some,
        r is Some ==> ((r->0).0 as int, (r->0).1 as int) == spec_parse_bytes_with_suffix(
            s@,
            pos as int,
        )->0,
        r is Some ==> pos < (r->0).1 <= s@.len(),
{
    let n = s.len();
    let mut end = pos;
    while end < n && 48 <= s[end] && s[end] <= 57
        invariant
            pos <= end <= n,
            n == s@.len(),
            digit_run_end(s@, pos as int) == digit_run_end(s@, end as int),
        decreases n - end,
    {
        end = end + 1;
    }
    proof {
        lemma_digit_run_bounds(s@, pos as int);
    }
    if end == pos {
        return None;
    }
    if !(end < n && (s[end] == 75 || s[end] == 77 || s[end] == 71)) {
        return None;
    }
    let mult: u128 = if s[end] == 75 {
        1024
    } else if s[end] == 77 {
        1048576
    } else {
        1073741824
    };
    match parse_num(s, pos, usize::MAX as u128) {
        Some((v, _e)) => {
            let prod: u128 = v * mult;
            if prod <= usize::MAX as u128 {
                Some((prod as usize, end + 1))
            } else {
                proof {
                    lemma_mul_le_mono(digits_value(s@, pos as int, end as int), mult as int);
                }
                None
            }
        },
        None => {
            proof {
                lemma_mul_le_mono(digits_value(s@, pos as int, end as int), mult as int);
                lemma_digits_value_nonneg(s@, pos as int, end as int);
            }
            None
        },
    }
}

/// A non-negative value times a multiplier of at least one does not
/// shrink.
proof fn lemma_mul_le_mono(v: int, mult: int)
    requires
        mult >= 1,
    ensures
        v >= 0 ==> v * mult >= v,
{
    assert(v >= 0 ==> v * mult >= v * 1) by (nonlinear_arith)
        requires
            mult >= 1,
    ;
}

/// Parses a byte count, with or without a capacity suffix.
pub fn parse_bytes(s: &[u8], pos: usize) -> (r: Option<(Bytes, usize)>)
    requires
        pos <= s@.len(),
    ensures
        r is Some <==> spec_parse_bytes(s@, pos as int) is Some,
        r is Some ==> ((r->0).0 as int, (r->0).1 as int) == spec_parse_bytes(s@, pos as int)->0,
        r is Some ==> pos < (r->0).1 <= s@.len(),
{
    match parse_bytes_with_suffix(s, pos) {
        Some(r) => Some(r),
        None => {
            match parse_num(s, pos, usize::MAX as u128) {
                Some((v, e)) => Some((v as usize, e)),
                None => None,
            }
        },
    }
}

/// A parenthesised byte count: `(`, a byte count, `)`.
pub open spec fn spec_paren_bytes(s: Seq<u8>, i: int) -> Option<(int, int)> {
    if 0 <= i < s.len() && s[i] == 40 {
        match spec_parse_bytes(s, i + 1) {
            Some((v, j)) => if j < s.len() && s[j] == 41 {
                Some((v, j + 1))
            } else {
                None
            },
            None => None,
        }
    } else {
        None
    }
}

/// Parses a parenthesised byte count.
fn paren_bytes(s: &[u8], pos: usize) -> (r: Option<(Bytes, usize)>)
    requires
        pos <= s@.len(),
    ensures
        r is Some <==> spec_paren_bytes(s@, pos as int) is Some,
        r is Some ==> ((r->0).0 as int, (r->0).1 as int) == spec_paren_bytes(s@, pos as int)->0,
        r is Some ==> pos < (r->0).1 <= s@.len(),
{
    if pos < s.len() && s[pos] == 40 {
        match parse_bytes(s, pos + 1) {
            Some((v, j)) => {
                if j < s.len() && s[j] == 41 {
                    Some((v, j + 1))
                } else {
                    None
                }
            },
            None => None,
        }
    } else {
        None
    }
}

/// A parenthesised pair of percentages: `(`, a number, optional spaces,
/// `,`, optional spaces, a number, `)`.
pub open spec fn spec_perc_pair(s: Seq<u8>, i: int) -> Option<((u8, u8), int)> {
    if 0 <= i < s.len() && s[i] == 40 {
        match spec_parse_num(s, i + 1, 255) {
            Some((a, j)) => {
                let k = spec_skip_spaces(s, j);
                if k < s.len() && s[k] == 44 {
                    let l = spec_skip_spaces(s, k + 1);
                    match spec_parse_num(s, l, 255) {
                        Some((b, m)) => if m < s.len() && s[m] == 41 {
                            Some(((a as u8, b as u8), m + 1))
                        } else {
                            None
                        },
                        None => None,
                    }
                } else {
                    None
                }
            },
            None => None,
        }
    } else {
        None
    }
}

/// Parses a parenthesised pair of percentages.
fn perc_pair(s: &[u8], pos: usize) -> (r: Option<((u8, u8), usize)>)
    requires
        pos <= s@.len(),
    ensures
        r is Some <==> spec_perc_pair(s@, pos as int) is Some,
        r is Some ==> ({
            let (ab, m) = spec_perc_pair(s@, pos as int)->0;
            let (ra, rm) = r->0;
            ra == ab && rm as int == m
        }),
        r is Some ==> pos < (r->0).1 <= s@.len(),
{
    if pos < s.len() && s[pos] == 40 {
        match parse_num(s, pos + 1, 255) {
            Some((a, j)) => {
                let k = skip_spaces(s, j);
                if k < s.len() && s[k] == 44 {
                    let l = skip_spaces(s, k + 1);
                    match parse_num(s, l, 255) {
                        Some((b, m)) => {
                            if m < s.len() && s[m] == 41 {
                                Some(((a as u8, b as u8), m + 1))
                            } else {
                                None
                            }
                        },
                        None => None,
                    }
                } else {
                    None
                }
            },
            None => None,
        }
    } else {
        None
    }
}

/// `New(bytes)`.
pub open spec fn spec_newput(s: Seq<u8>, i: int) -> Option<(CommandV, int)> {
    if spec_match_at(s, i, kw_new()) {
        match spec_paren_bytes(s, i + 3) {
            Some((v, j)) => Some((CommandV::NewPut(v as usize), j)),
            None => None,
        }
    } else {
        None
    }
}

/// `OverWrite(bytes)`.
pub open spec fn spec_overwrite(s: Seq<u8>, i: int) -> Option<(CommandV, int)> {
    if spec_match_at(s, i, kw_overwrite()) {
        match spec_paren_bytes(s, i + 9) {
            Some((v, j)) => Some((CommandV::Overwrite(v as usize), j)),
            None => None,
        }
    } else {
        None
    }
}

/// `Get(low, high)`.
pub open spec fn spec_get_with_perc(s: Seq<u8>, i: int) -> Option<(CommandV, int)> {
    if spec_match_at(s, i, kw_get()) {
        match spec_perc_pair(s, i + 3) {
            Some(((a, b), j)) => Some((CommandV::Get(a, b), j)),
            None => None,
        }
    } else {
        None
    }
}

/// A bare `Get`.
pub open spec fn spec_random_get(s: Seq<u8>, i: int) -> Option<(CommandV, int)> {
    if spec_match_at(s, i, kw_get()) {
        Some((CommandV::RandomGet, i + 3))
    } else {
        None
    }
}

/// `Delete(low, high)`.
pub open spec fn spec_delete_with_perc(s: Seq<u8>, i: int) -> Option<(CommandV, int)> {
    if spec_match_at(s, i, kw_delete()) {
        match spec_perc_pair(s, i + 6) {
            Some(((a, b), j)) => Some((CommandV::Delete(a, b), j)),
            None => None,
        }
    } else {
        None
    }
}

/// `DeleteRange(low, high)`.
pub open spec fn spec_delete_range(s: Seq<u8>, i: int) -> Option<(CommandV, int)> {
    if spec_match_at(s, i, kw_delete_range()) {
        match spec_perc_pair(s, i + 11) {
            Some(((a, b), j)) => Some((CommandV::DeleteRange(a, b), j)),
            None => None,
        }
    } else {
        None
    }
}

/// A bare `Delete`.
pub open spec fn spec_random_delete(s: Seq<u8>, i: int) -> Option<(CommandV, int)> {
    if spec_match_at(s, i, kw_delete()) {
        Some((CommandV::RandomDelete, i + 6))
    } else {
        None
    }
}

/// One command, trying the alternatives in the grammar's order with
/// backtracking: `New(b)`, `OverWrite(b)`, `Get(l,h)`, `Get`,
/// `Delete(l,h)`, `DeleteRange(l,h)`, `Delete`.
pub open spec fn spec_command(s: Seq<u8>, i: int) -> Option<(CommandV, int)> {
    if spec_newput(s, i) is Some {
        spec_newput(s, i)
    } else if spec_overwrite(s, i) is Some {
        spec_overwrite(s, i)
    } else if spec_get_with_perc(s, i) is Some {
        spec_get_with_perc(s, i)
    } else if spec_random_get(s, i) is Some {
        spec_random_get(s, i)
    } else if spec_delete_with_perc(s, i) is Some {
        spec_delete_with_perc(s, i)
    } else if spec_delete_range(s, i) is Some {
        spec_delete_range(s, i)
    } else {
        spec_random_delete(s, i)
    }
}

/// A successful number parse always moves forward and stays inside the
/// input.
proof fn lemma_parse_num_progress(s: Seq<u8>, i: int, max: int)
    requires
        spec_parse_num(s, i, max) is Some,
    ensures
        0 <= i < (spec_parse_num(s, i, max)->0).1 <= s.len(),
{
    let end = digit_run_end(s, i);
    assert(0 <= i < s.len());
    lemma_digit_run_bounds(s, i);
}

/// A successful byte-count parse always moves forward and stays inside
/// the input.
proof fn lemma_parse_bytes_progress(s: Seq<u8>, i: int)
    requires
        spec_parse_bytes(s, i) is Some,
    ensures
        0 <= i < (spec_parse_bytes(s, i)->0).1 <= s.len(),
{
    if spec_parse_bytes_with_suffix(s, i) is Some {
        let end = digit_run_end(s, i);
        assert(0 <= i < s.len());
        lemma_digit_run_bounds(s, i);
    } else {
        lemma_parse_num_progress(s, i, usize::MAX as int);
    }
}

/// A successful parenthesised byte count always moves forward and stays
/// inside the input.
proof fn lemma_paren_bytes_progress(s: Seq<u8>, i: int)
    requires
        spec_paren_bytes(s, i) is Some,
    ensures
        0 <= i < (spec_paren_bytes(s, i)->0).1 <= s.len(),
{
    lemma_parse_bytes_progress(s, i + 1);
}

/// A successful percentage pair always moves forward and stays inside
/// the input.
proof fn lemma_perc_pair_progress(s: Seq<u8>, i: int)
    requires
        spec_perc_pair(s, i) is Some,
    ensures
        0 <= i < (spec_perc_pair(s, i)->0).1 <= s.len(),
{
    lemma_parse_num_progress(s, i + 1, 255);
    let (a, j) = spec_parse_num(s, i + 1, 255)->0;
    lemma_skip_spaces_bounds(s, j);
    let k = spec_skip_spaces(s, j);
    lemma_skip_spaces_bounds(s, k + 1);
    let l = spec_skip_spaces(s, k + 1);
    lemma_parse_num_progress(s, l, 255);
}

/// A successful command parse always moves forward and stays inside the
/// input.
proof fn lemma_command_progress(s: Seq<u8>, i: int)
    requires
        spec_command(s, i) is Some,
    ensures
        0 <= i < (spec_command(s, i)->0).1 <= s.len(),
{
    if spec_newput(s, i) is Some {
        lemma_paren_bytes_progress(s, i + 3);
    } else if spec_overwrite(s, i) is Some {
        lemma_paren_bytes_progress(s, i + 9);
    } else if spec_get_with_perc(s, i) is Some {
        lemma_perc_pair_progress(s, i + 3);
    } else if spec_random_get(s, i) is Some {
    } else if spec_delete_with_perc(s, i) is Some {
        lemma_perc_pair_progress(s, i + 6);
    } else if spec_delete_range(s, i) is Some {
        lemma_perc_pair_progress(s, i + 11);
    } else {
    }
}

/// Parses `New(bytes)`.
pub fn newput(s: &[u8], pos: usize) -> (r: Option<(Command, usize)>)
    requires
        pos <= s@.len(),
    ensures
        r is Some <==> spec_newput(s@, pos as int) is Some,
        r is Some ==> (r->0).0.deep_view() == (spec_newput(s@, pos as int)->0).0 && (r->0).1 as int
            == (spec_newput(s@, pos as int)->0).1,
        r is Some ==> pos < (r->0).1 <= s@.len(),
{
    let n = s.len();
    let kw = kw_new_vec();
    if match_at(s, pos, &kw) {
        match paren_bytes(s, pos + 3) {
            Some((v, j)) => Some((Command::NewPut(v), j)),
            None => None,
        }
    } else {
        None
    }
}

/// Parses `OverWrite(bytes)`.
pub fn overwrite(s: &[u8], pos: usize) -> (r: Option<(Command, usize)>)
    requires
        pos <= s@.len(),
    ensures
        r is Some <==> spec_overwrite(s@, pos as int) is Some,
        r is Some ==> (r->0).0.deep_view() == (spec_overwrite(s@, pos as int)->0).0 && (r->0).1
            as int == (spec_overwrite(s@, pos as int)->0).1,
        r is Some ==> pos < (r->0).1 <= s@.len(),
{
    let n = s.len();
    let kw = kw_overwrite_vec();
    if match_at(s, pos, &kw) {
        match paren_bytes(s, pos + 9) {
            Some((v, j)) => Some((Command::Overwrite(v), j)),
            None => None,
        }
    } else {
        None
    }
}

/// Parses `Get(low, high)`.
pub fn get_with_perc(s: &[u8], pos: usize) -> (r: Option<(Command, usize)>)
    requires
        pos <= s@.len(),
    ensures
        r is Some <==> spec_get_with_perc(s@, pos as int) is Some,
        r is Some ==> (r->0).0.deep_view() == (spec_get_with_perc(s@, pos as int)->0).0 && (
        r->0).1 as int == (spec_get_with_perc(s@, pos as int)->0).1,
        r is Some ==> pos < (r->0).1 <= s@.len(),
{
    let n = s.len();
    let kw = kw_get_vec();
    if match_at(s, pos, &kw) {
        match perc_pair(s, pos + 3) {
            Some(((a, b), j)) => Some((Command::Get(a, b), j)),
            None => None,
        }
    } else {
        None
    }
}

/// Parses a bare `Get`.
pub fn random_get(s: &[u8], pos: usize) -> (r: Option<(Command, usize)>)
    requires
        pos <= s@.len(),
    ensures
        r is Some <==> spec_random_get(s@, pos as int) is Some,
        r is Some ==> (r->0).0.deep_view() == (spec_random_get(s@, pos as int)->0).0 && (r->0).1
            as int == (spec_random_get(s@, pos as int)->0).1,
        r is Some ==> pos < (r->0).1 <= s@.len(),
{
    let n = s.len();
    let kw = kw_get_vec();
    if match_at(s, pos, &kw) {
        Some((Command::RandomGet, pos + 3))
    } else {
        None
    }
}

/// Parses `Delete(low, high)`.
pub fn delete_with_perc(s: &[u8], pos: usize) -> (r: Option<(Command, usize)>)
    requires
        pos <= s@.len(),
    ensures
        r is Some <==> spec_delete_with_perc(s@, pos as int) is Some,
        r is Some ==> (r->0).0.deep_view() == (spec_delete_with_perc(s@, pos as int)->0).0 && (
        r->0).1 as int == (spec_delete_with_perc(s@, pos as int)->0).1,
        r is Some ==> pos < (r->0).1 <= s@.len(),
{
    let n = s.len();
    let kw = kw_delete_vec();
    if match_at(s, pos, &kw) {
        match perc_pair(s, pos + 6) {
            Some(((a, b), j)) => Some((Command::Delete(a, b), j)),
            None => None,
        }
    } else {
        None
    }
}

/// Parses `DeleteRange(low, high)`.
pub fn delete_range(s: &[u8], pos: usize) -> (r: Option<(Command, usize)>)
    requires
        pos <= s@.len(),
    ensures
        r is Some <==> spec_delete_range(s@, pos as int) is Some,
        r is Some ==> (r->0).0.deep_view() == (spec_delete_range(s@, pos as int)->0).0 && (r->0).1
            as int == (spec_delete_range(s@, pos as int)->0).1,
        r is Some ==> pos < (r->0).1 <= s@.len(),
{
    let n = s.len();
    let kw = kw_delete_range_vec();
    if match_at(s, pos, &kw) {
        match perc_pair(s, pos + 11) {
            Some(((a, b), j)) => Some((Command::DeleteRange(a, b), j)),
            None => None,
        }
    } else {
        None
    }
}

/// Parses a bare `Delete`.
pub fn random_delete(s: &[u8], pos: usize) -> (r: Option<(Command, usize)>)
    requires
        pos <= s@.len(),
    ensures
        r is Some <==> spec_random_delete(s@, pos as int) is Some,
        r is Some ==> (r->0).0.deep_view() == (spec_random_delete(s@, pos as int)->0).0 && (
        r->0).1 as int == (spec_random_delete(s@, pos as int)->0).1,
        r is Some ==> pos < (r->0).1 <= s@.len(),
{
    let n = s.len();
    let kw = kw_delete_vec();
    if match_at(s, pos, &kw) {
        Some((Command::RandomDelete, pos + 6))
    } else {
        None
    }
}

/// Parses one command, trying the grammar's alternatives in order.
pub fn parse_command(s: &[u8], pos: usize) -> (r: Option<(Command, usize)>)
    requires
        pos <= s@.len(),
    ensures
        r is Some <==> spec_command(s@, pos as int) is Some,
        r is Some ==> (r->0).0.deep_view() == (spec_command(s@, pos as int)->0).0 && (r->0).1
            as int == (spec_command(s@, pos as int)->0).1,
        r is Some ==> pos < (r->0).1 <= s@.len(),
{
    match newput(s, pos) {
        Some(r) => Some(r),
        None => match overwrite(s, pos) {
            Some(r) => Some(r),
            None => match get_with_perc(s, pos) {
                Some(r) => Some(r),
                None => match random_get(s, pos) {
                    Some(r) => Some(r),
                    None => match delete_with_perc(s, pos) {
                        Some(r) => Some(r),
                        None => match delete_range(s, pos) {
                            Some(r) => Some(r),
                            None => random_delete(s, pos),
                        },
                    },
                },
            },
        },
    }
}

/// A frequency: `<`, a number, `%>`.
pub open spec fn spec_freq(s: Seq<u8>, i: int) -> Option<(u8, int)> {
    if 0 <= i < s.len() && s[i] == 60 {
        match spec_parse_num(s, i + 1, 255) {
            Some((f, j)) => if spec_match_at(s, j, kw_pct_close()) {
                Some((f as u8, j + 2))
            } else {
                None
            },
            None => None,
        }
    } else {
        None
    }
}

/// Parses a frequency such as `<42%>`.
pub fn parse_freq(s: &[u8], pos: usize) -> (r: Option<(Freq, usize)>)
    requires
        pos <= s@.len(),
    ensures
        r is Some <==> spec_freq(s@, pos as int) is Some,
        r is Some ==> ((r->0).0, (r->0).1 as int) == spec_freq(s@, pos as int)->0,
        r is Some ==> pos < (r->0).1 <= s@.len(),
{
    if pos < s.len() && s[pos] == 60 {
        match parse_num(s, pos + 1, 255) {
            Some((f, j)) => {
                let kw = kw_pct_close_vec();
                if match_at(s, j, &kw) {
                    Some((f as u8, j + 2))
                } else {
                    None
                }
            },
            None => None,
        }
    } else {
        None
    }
}

/// One `freq command ;` item, with insignificant spaces before the
/// frequency and between it and the command.
pub open spec fn spec_freq_command(s: Seq<u8>, i: int) -> Option<((u8, CommandV), int)> {
    let j = spec_skip_spaces(s, i);
    match spec_freq(s, j) {
        Some((f, k)) => {
            let l = spec_skip_spaces(s, k);
            match spec_command(s, l) {
                Some((c, m)) => if m < s.len() && s[m] == 59 {
                    Some(((f, c), m + 1))
                } else {
                    None
                },
                None => None,
            }
        },
        None => None,
    }
}

/// A successful `freq command ;` parse always moves forward.
proof fn lemma_freq_command_progress(s: Seq<u8>, i: int)
    requires
        0 <= i <= s.len(),
        spec_freq_command(s, i) is Some,
    ensures
        i < (spec_freq_command(s, i)->0).1 <= s.len(),
{
    lemma_skip_spaces_bounds(s, i);
    let j = spec_skip_spaces(s, i);
    let (f, k) = spec_freq(s, j)->0;
    lemma_skip_spaces_bounds(s, k);
    let l = spec_skip_spaces(s, k);
    lemma_command_progress(s, l);
    lemma_digit_run_bounds(s, j + 1);
}

/// Parses one `freq command ;` item.
pub fn parse_freq_command(s: &[u8], pos: usize) -> (r: Option<((Freq, Command), usize)>)
    requires
        pos <= s@.len(),
    ensures
        r is Some <==> spec_freq_command(s@, pos as int) is Some,
        r is Some ==> ({
            let ((f, c), m) = spec_freq_command(s@, pos as int)->0;
            let (rfc, rm) = r->0;
            rfc.0 == f && rfc.1.deep_view() == c && rm as int == m
        }),
        r is Some ==> pos < (r->0).1 <= s@.len(),
{
    let j = skip_spaces(s, pos);
    match parse_freq(s, j) {
        Some((f, k)) => {
            let l = skip_spaces(s, k);
            match parse_command(s, l) {
                Some((c, m)) => {
                    if m < s.len() && s[m] == 59 {
                        proof {
                            lemma_freq_command_progress(s@, pos as int);
                        }
                        Some(((f, c), m + 1))
                    } else {
                        None
                    }
                },
                None => None,
            }
        },
        None => None,
    }
}

/// The run of `freq command ;` items starting at `i`: the parsed
/// entries (each command as a one-command statement) and the position
/// where the run ends.
pub open spec fn spec_freq_commands(s: Seq<u8>, i: int) -> (Seq<(u8, Seq<CommandV>)>, int)
    decreases s.len() - i,
    when 0 <= i <= s.len()
    via spec_freq_commands_decreases
{
    match spec_freq_command(s, i) {
        Some(((f, c), j)) => {
            let (rest, end) = spec_freq_commands(s, j);
            (seq![(f, seq![c])] + rest, end)
        },
        None => (Seq::empty(), i),
    }
}

#[via_fn]
proof fn spec_freq_commands_decreases(s: Seq<u8>, i: int) {
    if spec_freq_command(s, i) is Some {
        lemma_freq_command_progress(s, i);
    }
}

proof fn lemma_freq_commands_bounds(s: Seq<u8>, i: int)
    requires
        0 <= i <= s.len(),
    ensures
        i <= spec_freq_commands(s, i).1 <= s.len(),
    decreases s.len() - i,
{
    if spec_freq_command(s, i) is Some {
        lemma_freq_command_progress(s, i);
        let ((f, c), j) = spec_freq_command(s, i)->0;
        lemma_freq_commands_bounds(s, j);
    }
}

/// Parses the run of `freq command ;` items starting at `pos`.
fn freq_commands(s: &[u8], pos: usize) -> (r: (Vec<(Freq, Statement)>, usize))
    requires
        pos <= s@.len(),
    ensures
        r.0.deep_view() == spec_freq_commands(s@, pos as int).0,
        r.1 as int == spec_freq_commands(s@, pos as int).1,
        pos <= r.1 <= s@.len(),
{
    let ghost full = spec_freq_commands(s@, pos as int);
    let mut entries: Vec<(Freq, Statement)> = Vec::new();
    let mut p = pos;
    proof {
        lemma_freq_commands_bounds(s@, pos as int);
        assert(entries.deep_view() =~= Seq::<(u8, Seq<CommandV>)>::empty());
        assert(entries.deep_view() + spec_freq_commands(s@, p as int).0 =~= full.0);
    }
    loop
        invariant
            pos <= p <= s@.len(),
            full == spec_freq_commands(s@, pos as int),
            entries.deep_view() + spec_freq_commands(s@, p as int).0 =~= full.0,
            spec_freq_commands(s@, p as int).1 == full.1,
        ensures
            entries.deep_view() =~= full.0,
            p as int == full.1,
            pos <= p <= s@.len(),
        decreases s@.len() - p,
    {
        let ghost before = entries.deep_view();
        match parse_freq_command(s, p) {
            Some(((f, c), j)) => {
                proof {
                    lemma_freq_command_progress(s@, p as int);
                }
                let ghost cv = c.deep_view();
                let mut single: Vec<Command> = Vec::new();
                single.push(c);
                let st = Statement(single);
                proof {
                    assert(st.deep_view() =~= seq![cv]);
                }
                entries.push((f, st));
                proof {
                    assert(entries.deep_view() =~= before.push((f as u8, seq![cv])));
                    assert(before.push((f as u8, seq![cv])) + spec_freq_commands(s@, j as int).0
                        =~= before + (seq![(f as u8, seq![cv])] + spec_freq_commands(
                        s@,
                        j as int,
                    ).0));
                }
                p = j;
            },
            None => {
                proof {
                    assert(spec_freq_commands(s@, p as int).0 =~= Seq::<(u8, Seq<CommandV>)>::empty());
                    assert(entries.deep_view() + Seq::<(u8, Seq<CommandV>)>::empty()
                        =~= entries.deep_view());
                }
                break ;
            },
        }
    }
    (entries, p)
}

/// An iteration count in brackets: `[`, a number, `]`, with no spaces
/// inside.
pub open spec fn spec_parse_iter(s: Seq<u8>, i: int) -> Option<(int, int)> {
    if 0 <= i < s.len() && s[i] == 91 {
        match spec_parse_num(s, i + 1, usize::MAX as int) {
            Some((v, j)) => if j < s.len() && s[j] == 93 {
                Some((v, j + 1))
            } else {
                None
            },
            None => None,
        }
    } else {
        None
    }
}

/// Parses an iteration count in brackets.
fn parse_iter(s: &[u8], pos: usize) -> (r: Option<(usize, usize)>)
    requires
        pos <= s@.len(),
    ensures
        r is Some <==> spec_parse_iter(s@, pos as int) is Some,
        r is Some ==> ((r->0).0 as int, (r->0).1 as int) == spec_parse_iter(s@, pos as int)->0,
        r is Some ==> pos < (r->0).1 <= s@.len(),
{
    if pos < s.len() && s[pos] == 91 {
        match parse_num(s, pos + 1, usize::MAX as u128) {
            Some((v, j)) => {
                if j < s.len() && s[j] == 93 {
                    Some((v as usize, j + 1))
                } else {
                    None
                }
            },
            None => None,
        }
    } else {
        None
    }
}

/// The body of a section after its keyword: the bracketed iteration
/// count, `{`, the `freq command ;` items, `}`, each group surrounded by
/// insignificant spaces.  Returns the iteration count, the entries and
/// the position after the trailing spaces.
pub open spec fn spec_section_tail(s: Seq<u8>, p: int) -> Option<
    ((int, Seq<(u8, Seq<CommandV>)>), int),
> {
    match spec_parse_iter(s, p) {
        Some((iter, q)) => {
            let a = spec_skip_spaces(s, q);
            if a < s.len() && s[a] == 123 {
                let c = spec_skip_spaces(s, a + 1);
                let (entries, e) = spec_freq_commands(s, c);
                let d = spec_skip_spaces(s, e);
                if d < s.len() && s[d] == 125 {
                    Some(((iter, entries), spec_skip_spaces(s, d + 1)))
                } else {
                    None
                }
            } else {
                None
            }
        },
        None => None,
    }
}

/// Parses the body of a section after its keyword.
fn section_tail(s: &[u8], pos: usize) -> (r: Option<((usize, Vec<(Freq, Statement)>), usize)>)
    requires
        pos <= s@.len(),
    ensures
        r is Some <==> spec_section_tail(s@, pos as int) is Some,
        r is Some ==> ({
            let ((iter, entries), e) = spec_section_tail(s@, pos as int)->0;
            let (rie, re) = r->0;
            rie.0 as int == iter && rie.1.deep_view() == entries && re as int == e
        }),
        r is Some ==> pos < (r->0).1 <= s@.len(),
{
    match parse_iter(s, pos) {
        Some((iter, q)) => {
            let a = skip_spaces(s, q);
            if a < s.len() && s[a] == 123 {
                let c = skip_spaces(s, a + 1);
                let (entries, e) = freq_commands(s, c);
                let d = skip_spaces(s, e);
                if d < s.len() && s[d] == 125 {
                    let fin = skip_spaces(s, d + 1);
                    Some(((iter, entries), fin))
                } else {
                    None
                }
            } else {
                None
            }
        },
        None => None,
    }
}

/// An `Ordered[n]{ ... }` section, with leading insignificant spaces.
pub open spec fn spec_ordered(s: Seq<u8>, i: int) -> Option<(SectionV, int)> {
    let j = spec_skip_spaces(s, i);
    if spec_match_at(s, j, kw_ordered()) {
        match spec_section_tail(s, j + 7) {
            Some(((iter, entries), e)) => Some((SectionV::Ordered(iter as usize, entries), e)),
            None => None,
        }
    } else {
        None
    }
}

/// An `Unordered[n]{ ... }` section, with leading insignificant spaces.
pub open spec fn spec_unordered(s: Seq<u8>, i: int) -> Option<(SectionV, int)> {
    let j = spec_skip_spaces(s, i);
    if spec_match_at(s, j, kw_unordered()) {
        match spec_section_tail(s, j + 9) {
            Some(((iter, entries), e)) => Some((SectionV::Unordered(iter as usize, entries), e)),
            None => None,
        }
    } else {
        None
    }
}

/// Parses an `Ordered[n]{ ... }` section.
pub fn parse_ordered(s: &[u8], pos: usize) -> (r: Option<(Section, usize)>)
    requires
        pos <= s@.len(),
    ensures
        r is Some <==> spec_ordered(s@, pos as int) is Some,
        r is Some ==> (r->0).0.deep_view() == (spec_ordered(s@, pos as int)->0).0 && (r->0).1
            as int == (spec_ordered(s@, pos as int)->0).1,
        r is Some ==> (r->0).1 <= s@.len(),
{
    let j = skip_spaces(s, pos);
    let n = s.len();
    let kw = kw_ordered_vec();
    if match_at(s, j, &kw) {
        match section_tail(s, j + 7) {
            Some(((iter, entries), e)) => Some((Section::Ordered(iter, entries), e)),
            None => None,
        }
    } else {
        None
    }
}

/// Parses an `Unordered[n]{ ... }` section.
pub fn parse_unordered(s: &[u8], pos: usize) -> (r: Option<(Section, usize)>)
    requires
        pos <= s@.len(),
    ensures
        r is Some <==> spec_unordered(s@, pos as int) is Some,
        r is Some ==> (r->0).0.deep_view() == (spec_unordered(s@, pos as int)->0).0 && (r->0).1
            as int == (spec_unordered(s@, pos as int)->0).1,
        r is Some ==> (r->0).1 <= s@.len(),
{
    let j = skip_spaces(s, pos);
    let n = s.len();
    let kw = kw_unordered_vec();
    if match_at(s, j, &kw) {
        match section_tail(s, j + 9) {
            Some(((iter, entries), e)) => Some((Section::Unordered(iter, entries), e)),
            None => None,
        }
    } else {
        None
    }
}

/// One section: insignificant spaces and comments, then an ordered or
/// unordered block, then insignificant spaces and comments.
pub open spec fn spec_section(s: Seq<u8>, i: int) -> Option<(SectionV, int)> {
    let j = spec_skip_ws(s, i);
    if spec_ordered(s, j) is Some {
        let (sec, e) = spec_ordered(s, j)->0;
        Some((sec, spec_skip_ws(s, e)))
    } else if spec_unordered(s, j) is Some {
        let (sec, e) = spec_unordered(s, j)->0;
        Some((sec, spec_skip_ws(s, e)))
    } else {
        None
    }
}

/// A successful section parse always moves forward and stays inside the
/// input.
proof fn lemma_section_progress(s: Seq<u8>, i: int)
    requires
        0 <= i <= s.len(),
        spec_section(s, i) is Some,
    ensures
        i < (spec_section(s, i)->0).1 <= s.len(),
{
    lemma_skip_ws_bounds(s, i);
    let j = spec_skip_ws(s, i);
    lemma_skip_spaces_bounds(s, j);
    let k = spec_skip_spaces(s, j);
    let tail_at = if spec_ordered(s, j) is Some {
        k + 7
    } else {
        k + 9
    };
    lemma_parse_num_progress(s, tail_at + 1, usize::MAX as int);
    let (iter, q) = spec_parse_iter(s, tail_at)->0;
    lemma_skip_spaces_bounds(s, q);
    let a = spec_skip_spaces(s, q);
    lemma_skip_spaces_bounds(s, a + 1);
    let c = spec_skip_spaces(s, a + 1);
    lemma_freq_commands_bounds(s, c);
    let (entries, e) = spec_freq_commands(s, c);
    lemma_skip_spaces_bounds(s, e);
    let d = spec_skip_spaces(s, e);
    lemma_skip_spaces_bounds(s, d + 1);
    let fin = spec_skip_spaces(s, d + 1);
    lemma_skip_ws_bounds(s, fin);
}

/// Parses one section.
pub fn parse_section(s: &[u8], pos: usize) -> (r: Option<(Section, usize)>)
    requires
        pos <= s@.len(),
    ensures
        r is Some <==> spec_section(s@, pos as int) is Some,
        r is Some ==> (r->0).0.deep_view() == (spec_section(s@, pos as int)->0).0 && (r->0).1
            as int == (spec_section(s@, pos as int)->0).1,
        r is Some ==> pos < (r->0).1 <= s@.len(),
{
    let j = spaces_with_comments(s, pos);
    match parse_ordered(s, j) {
        Some((sec, e)) => {
            let fin = spaces_with_comments(s, e);
            proof {
                lemma_section_progress(s@, pos as int);
            }
            Some((sec, fin))
        },
        None => {
            match parse_unordered(s, j) {
                Some((sec, e)) => {
                    let fin = spaces_with_comments(s, e);
                    proof {
                        lemma_section_progress(s@, pos as int);
                    }
                    Some((sec, fin))
                },
                None => None,
            }
        },
    }
}

/// The run of sections starting at `i`: the parsed sections and the
/// position where the run ends.
pub open spec fn spec_sections(s: Seq<u8>, i: int) -> (Seq<SectionV>, int)
    decreases s.len() - i,
    when 0 <= i <= s.len()
    via spec_sections_decreases
{
    match spec_section(s, i) {
        Some((sec, j)) => {
            let (rest, end) = spec_sections(s, j);
            (seq![sec] + rest, end)
        },
        None => (Seq::empty(), i),
    }
}

#[via_fn]
proof fn spec_sections_decreases(s: Seq<u8>, i: int) {
    if spec_section(s, i) is Some {
        lemma_section_progress(s, i);
    }
}

proof fn lemma_sections_bounds(s: Seq<u8>, i: int)
    requires
        0 <= i <= s.len(),
    ensures
        i <= spec_sections(s, i).1 <= s.len(),
    decreases s.len() - i,
{
    if spec_section(s, i) is Some {
        lemma_section_progress(s, i);
        let (sec, j) = spec_section(s, i)->0;
        lemma_sections_bounds(s, j);
    }
}

/// Parses the run of sections starting at `pos`.
fn sections(s: &[u8], pos: usize) -> (r: (Vec<Section>, usize))
    requires
        pos <= s@.len(),
    ensures
        r.0.deep_view() == spec_sections(s@, pos as int).0,
        r.1 as int == spec_sections(s@, pos as int).1,
        pos <= r.1 <= s@.len(),
{
    let ghost full = spec_sections(s@, pos as int);
    let mut secs: Vec<Section> = Vec::new();
    let mut p = pos;
    proof {
        lemma_sections_bounds(s@, pos as int);
        assert(secs.deep_view() =~= Seq::<SectionV>::empty());
        assert(secs.deep_view() + spec_sections(s@, p as int).0 =~= full.0);
    }
    loop
        invariant
            pos <= p <= s@.len(),
            full == spec_sections(s@, pos as int),
            secs.deep_view() + spec_sections(s@, p as int).0 =~= full.0,
            spec_sections(s@, p as int).1 == full.1,
        ensures
            secs.deep_view() =~= full.0,
            p as int == full.1,
            pos <= p <= s@.len(),
        decreases s@.len() - p,
    {
        let ghost before = secs.deep_view();
        match parse_section(s, p) {
            Some((sec, j)) => {
                let ghost sv = sec.deep_view();
                secs.push(sec);
                proof {
                    assert(secs.deep_view() =~= before.push(sv));
                    assert(before.push(sv) + spec_sections(s@, j as int).0 =~= before + (seq![sv]
                        + spec_sections(s@, j as int).0));
                }
                p = j;
            },
            None => {
                proof {
                    assert(spec_sections(s@, p as int).0 =~= Seq::<SectionV>::empty());
                    assert(secs.deep_view() + Seq::<SectionV>::empty() =~= secs.deep_view());
                }
                break ;
            },
        }
    }
    (secs, p)
}

/// The optional seed line: `Seed:`, spaces, a number, `;`.
pub open spec fn spec_seed(s: Seq<u8>, i: int) -> Option<(int, int)> {
    if spec_match_at(s, i, kw_seed()) {
        let j = spec_skip_spaces(s, i + 5);
        match spec_parse_num(s, j, u64::MAX as int) {
            Some((v, k)) => if k < s.len() && s[k] == 59 {
                Some((v, k + 1))
            } else {
                None
            },
            None => None,
        }
    } else {
        None
    }
}

/// Parses the seed line `Seed: <number>;`.
pub fn parse_seed(s: &[u8], pos: usize) -> (r: Option<(u64, usize)>)
    requires
        pos <= s@.len(),
    ensures
        r is Some <==> spec_seed(s@, pos as int) is Some,
        r is Some ==> ((r->0).0 as int, (r->0).1 as int) == spec_seed(s@, pos as int)->0,
        r is Some ==> (r->0).1 <= s@.len(),
{
    let n = s.len();
    let kw = kw_seed_vec();
    if match_at(s, pos, &kw) {
        let j = skip_spaces(s, pos + 5);
        match parse_num(s, j, u64::MAX as u128) {
            Some((v, k)) => {
                if k < s.len() && s[k] == 59 {
                    Some((v as u64, k + 1))
                } else {
                    None
                }
            },
            None => None,
        }
    } else {
        None
    }
}

/// A whole workload: leading spaces, an optional seed line, then one or
/// more sections, consuming the entire input.
pub open spec fn spec_workload(s: Seq<u8>) -> Option<WorkloadV> {
    let i0 = spec_skip_spaces(s, 0);
    let seeded = spec_seed(s, i0);
    let i1 = if seeded is Some {
        (seeded->0).1
    } else {
        i0
    };
    let seed = if seeded is Some {
        Some((seeded->0).0 as u64)
    } else {
        None
    };
    let (secs, end) = spec_sections(s, i1);
    if secs.len() >= 1 && end == s.len() {
        Some(WorkloadV { seed, sections: secs })
    } else {
        None
    }
}

/// Where parsing a malformed workload stops: the position after the
/// sections that could be read — the same on every parse of one text.
pub open spec fn spec_workload_stop(s: Seq<u8>) -> int {
    let i0 = spec_skip_spaces(s, 0);
    let seeded = spec_seed(s, i0);
    let i1 = if seeded is Some {
        (seeded->0).1
    } else {
        i0
    };
    spec_sections(s, i1).1
}

/// Parses a whole workload.  Succeeds exactly on texts of the grammar
/// that the entire input spells out; fails with the byte position at
/// which parsing stopped otherwise.
pub fn parse_workload(s: &[u8]) -> (r: Result<Workload, SyntaxError>)
    ensures
        r is Ok <==> spec_workload(s@) is Some,
        r is Ok ==> (r->Ok_0).deep_view() == spec_workload(s@)->0,
        r is Err ==> (r->Err_0).position == spec_workload_stop(s@),
        r is Err ==> (r->Err_0).position <= s@.len(),
{
    let i0 = skip_spaces(s, 0);
    let (seed, i1) = match parse_seed(s, i0) {
        Some((v, j)) => (Some(v), j),
        None => (None, i0),
    };
    let (secs, end) = sections(s, i1);
    if secs.len() >= 1 && end == s.len() {
        let w = Workload { seed, sections: secs };
        proof {
            assert(w.deep_view() =~= spec_workload(s@)->0);
        }
        Ok(w)
    } else {
        Err(SyntaxError { position: end })
    }
}

/// Parses a capacity literal — an unsigned integer optionally followed
/// by `K`, `M` or `G` — requiring the entire input to be consumed; any
/// other input is answered with `Fail`.
pub fn parse_with_suffix(s: &[u8]) -> (r: Result<u64, String>)
    ensures
        r is Ok <==> (spec_parse_bytes(s@, 0) is Some && (spec_parse_bytes(s@, 0)->0).1
            == s@.len()),
        r is Ok ==> r->Ok_0 as int == (spec_parse_bytes(s@, 0)->0).0,
{
    match parse_bytes(s, 0) {
        Some((v, e)) => {
            if e == s.len() {
                Ok(v as u64)
            } else {
                Err("Fail".to_owned())
            }
        },
        None => Err("Fail".to_owned()),
    }
}

/// The command shapes that the grammar can spell out: everything but
/// `Times` (which has no literal) and `Embed` (which only the generator
/// emits).
pub open spec fn grammar_command(c: CommandV) -> bool {
    !(c is Times) && !(c is Embed)
}

/// The decimal digits of `n`, most significant first.
pub open spec fn spec_render_num(n: nat) -> Seq<u8>
    decreases n,
{
    if n < 10 {
        seq![(48 + n) as u8]
    } else {
        spec_render_num(n / 10).push((48 + n % 10) as u8)
    }
}

/// The textual form of a grammar command, with plain byte counts and no
/// spaces.
pub open spec fn spec_render_command(c: CommandV) -> Seq<u8> {
    match c {
        CommandV::NewPut(b) => kw_new() + seq![40u8] + spec_render_num(b as nat) + seq![41u8],
        CommandV::Overwrite(b) => kw_overwrite() + seq![40u8] + spec_render_num(b as nat)
            + seq![41u8],
        CommandV::RandomGet => kw_get(),
        CommandV::Get(l, r) => kw_get() + seq![40u8] + spec_render_num(l as nat) + seq![44u8]
            + spec_render_num(r as nat) + seq![41u8],
        CommandV::RandomDelete => kw_delete(),
        CommandV::Delete(l, r) => kw_delete() + seq![40u8] + spec_render_num(l as nat)
            + seq![44u8] + spec_render_num(r as nat) + seq![41u8],
        CommandV::DeleteRange(l, r) => kw_delete_range() + seq![40u8] + spec_render_num(l as nat)
            + seq![44u8] + spec_render_num(r as nat) + seq![41u8],
        _ => Seq::empty(),
    }
}

/// Rendered digits are digits, and there is at least one.
proof fn lemma_render_num_digits(n: nat)
    ensures
        spec_render_num(n).len() >= 1,
        forall|k: int| 0 <= k < spec_render_num(n).len() ==> is_digit(#[trigger] spec_render_num(n)[k]),
    decreases n,
{
    if n >= 10 {
        lemma_render_num_digits(n / 10);
    }
}

/// Appends the decimal digits of `n`.
pub fn push_num(out: &mut Vec<u8>, n: usize)
    ensures
        final(out)@ == old(out)@ + spec_render_num(n as nat),
    decreases n,
{
    if n < 10 {
        out.push(48 + n as u8);
        proof {
            assert(final(out)@ =~= old(out)@ + spec_render_num(n as nat));
        }
    } else {
        push_num(out, n / 10);
        out.push(48 + (n % 10) as u8);
        proof {
            assert(final(out)@ =~= old(out)@ + spec_render_num(n as nat));
        }
    }
}

/// The textual form of a grammar command.
pub fn render_command(c: &Command) -> (r: Vec<u8>)
    requires
        grammar_command(c.deep_view()),
    ensures
        r@ == spec_render_command(c.deep_view()),
{
    let mut out: Vec<u8> = Vec::new();
    match c {
        Command::NewPut(b) => {
            let mut kw = kw_new_vec();
            out.append(&mut kw);
            out.push(40);
            push_num(&mut out, *b);
            out.push(41);
        },
        Command::Overwrite(b) => {
            let mut kw = kw_overwrite_vec();
            out.append(&mut kw);
            out.push(40);
            push_num(&mut out, *b);
            out.push(41);
        },
        Command::RandomGet => {
            let mut kw = kw_get_vec();
            out.append(&mut kw);
        },
        Command::Get(l, r) => {
            let mut kw = kw_get_vec();
            out.append(&mut kw);
            out.push(40);
            push_num(&mut out, *l as usize);
            out.push(44);
            push_num(&mut out, *r as usize);
            out.push(41);
        },
        Command::RandomDelete => {
            let mut kw = kw_delete_vec();
            out.append(&mut kw);
        },
        Command::Delete(l, r) => {
            let mut kw = kw_delete_vec();
            out.append(&mut kw);
            out.push(40);
            push_num(&mut out, *l as usize);
            out.push(44);
            push_num(&mut out, *r as usize);
            out.push(41);
        },
        Command::DeleteRange(l, r) => {
            let mut kw = kw_delete_range_vec();
            out.append(&mut kw);
            out.push(40);
            push_num(&mut out, *l as usize);
            out.push(44);
            push_num(&mut out, *r as usize);
            out.push(41);
        },
        Command::Embed(_b) => {
            proof {
                assert(false);
            }
        },
        Command::Times(_n, _cs) => {
            proof {
                assert(false);
            }
        },
    }
    proof {
        assert(out@ =~= spec_render_command(c.deep_view()));
    }
    out
}

/// A digit run that ends at a non-digit (or at the end of the input) is
/// scanned exactly to its end.
proof fn lemma_digit_run_exact(s: Seq<u8>, a: int, b: int)
    requires
        0 <= a <= b <= s.len(),
        forall|k: int| a <= k < b ==> is_digit(#[trigger] s[k]),
        b == s.len() || !is_digit(s[b]),
    ensures
        digit_run_end(s, a) == b,
    decreases b - a,
{
    if a < b {
        lemma_digit_run_exact(s, a + 1, b);
    }
}

/// The digits of `n`, read back from inside a larger text, give `n`.
proof fn lemma_digits_value_of_render(s: Seq<u8>, a: int, n: nat)
    requires
        0 <= a,
        a + spec_render_num(n).len() <= s.len(),
        s.subrange(a, a + spec_render_num(n).len()) == spec_render_num(n),
    ensures
        digits_value(s, a, a + spec_render_num(n).len()) == n,
    decreases n,
{
    let d = spec_render_num(n);
    let b = a + d.len();
    lemma_match_at_bytes(s, a, d);
    if n < 10 {
        assert(digits_value(s, a, b) == digits_value(s, a, a) * 10 + (s[a] - 48));
        assert(s[a] == d[0]);
    } else {
        let dp = spec_render_num(n / 10);
        lemma_render_num_digits(n / 10);
        assert(d == dp.push((48 + n % 10) as u8));
        assert(s.subrange(a, a + dp.len() as int) =~= dp) by {
            assert(forall|k: int|
                0 <= k < dp.len() ==> #[trigger] s.subrange(a, a + dp.len() as int)[k] == s[a
                    + k]);
            assert(forall|k: int| 0 <= k < dp.len() ==> #[trigger] d[k] == dp[k]);
        }
        lemma_digits_value_of_render(s, a, n / 10);
        assert(s[b - 1] == d[d.len() - 1]);
        assert(d[d.len() - 1] == 48 + n % 10);
        assert(digits_value(s, a, b) == digits_value(s, a, b - 1) * 10 + (s[b - 1] - 48));
        assert(n / 10 * 10 + n % 10 == n) by (nonlinear_arith);
    }
}

/// A rendered number embedded in a text, followed by a non-digit (or the
/// end), parses back to itself.
proof fn lemma_parse_num_of_render(s: Seq<u8>, a: int, n: nat, max: int)
    requires
        0 <= a,
        a + spec_render_num(n).len() <= s.len(),
        s.subrange(a, a + spec_render_num(n).len()) == spec_render_num(n),
        a + spec_render_num(n).len() == s.len() || !is_digit(s[a + spec_render_num(n).len()]),
        n <= max,
    ensures
        spec_parse_num(s, a, max) == Some((n as int, a + spec_render_num(n).len())),
        digit_run_end(s, a) == a + spec_render_num(n).len(),
{
    let d = spec_render_num(n);
    let b = a + d.len();
    lemma_render_num_digits(n);
    lemma_match_at_bytes(s, a, d);
    assert forall|k: int| a <= k < b implies is_digit(#[trigger] s[k]) by {
        assert(s[a + (k - a)] == d[k - a]);
        assert(is_digit(d[k - a]));
    }
    lemma_digit_run_exact(s, a, b);
    lemma_digits_value_of_render(s, a, n);
}

/// A text whose first byte differs from a pattern's first byte does not
/// hold that pattern at its start.
proof fn lemma_first_byte_mismatch(s: Seq<u8>, pat: Seq<u8>)
    requires
        pat.len() >= 1,
        s.len() >= 1,
        s[0] != pat[0],
    ensures
        !spec_match_at(s, 0, pat),
{
    if spec_match_at(s, 0, pat) {
        lemma_match_at_bytes(s, 0, pat);
    }
}

/// Parser round-trip for a rendered percentage pair `(l,r)` standing at
/// position `k` of a text and running to its end.
proof fn lemma_perc_pair_of_render(s: Seq<u8>, k: int, l: u8, r: u8)
    requires
        0 <= k,
        s.len() == k + 3 + spec_render_num(l as nat).len() + spec_render_num(r as nat).len(),
        s.subrange(k, s.len() as int) =~= seq![40u8] + spec_render_num(l as nat) + seq![44u8]
            + spec_render_num(r as nat) + seq![41u8],
    ensures
        spec_perc_pair(s, k) == Some(((l, r), s.len() as int)),
{
    let dl = spec_render_num(l as nat);
    let dr = spec_render_num(r as nat);
    let tail = s.subrange(k, s.len() as int);
    lemma_render_num_digits(l as nat);
    lemma_render_num_digits(r as nat);
    assert(s[k] == tail[0]);
    assert(s[k] == 40);
    let j = k + 1 + dl.len();
    assert(s.subrange(k + 1, j) =~= dl) by {
        assert(forall|t: int|
            0 <= t < dl.len() ==> #[trigger] s.subrange(k + 1, j)[t] == tail[1 + t]);
    }
    assert(s[j] == tail[j - k]);
    assert(s[j] == 44);
    lemma_parse_num_of_render(s, k + 1, l as nat, 255);
    assert(spec_parse_num(s, k + 1, 255) == Some((l as int, j)));
    assert(spec_skip_spaces(s, j) == j);
    let m = j + 1 + dr.len();
    assert(s.subrange(j + 1, m) =~= dr) by {
        assert(forall|t: int|
            0 <= t < dr.len() ==> #[trigger] s.subrange(j + 1, m)[t] == tail[j + 1 - k + t]);
    }
    assert(s[m] == tail[m - k]);
    assert(s[m] == 41);
    lemma_parse_num_of_render(s, j + 1, r as nat, 255);
    assert(spec_skip_spaces(s, j + 1) == j + 1) by {
        assert(s[j + 1] == dr[0]);
        assert(is_digit(s[j + 1]));
    }
    assert(spec_parse_num(s, j + 1, 255) == Some((r as int, m)));
    assert(m + 1 == s.len());
}

/// Parser round-trip for a rendered byte count `(b)` in parentheses
/// standing at position `k` of a text and running to its end.
proof fn lemma_paren_bytes_of_render(s: Seq<u8>, k: int, b: usize)
    requires
        0 <= k,
        s.len() == k + 2 + spec_render_num(b as nat).len(),
        s.subrange(k, s.len() as int) =~= seq![40u8] + spec_render_num(b as nat) + seq![41u8],
    ensures
        spec_paren_bytes(s, k) == Some((b as int, s.len() as int)),
{
    let d = spec_render_num(b as nat);
    let tail = s.subrange(k, s.len() as int);
    lemma_render_num_digits(b as nat);
    assert(s[k] == tail[0]);
    assert(s[k] == 40);
    let j = k + 1 + d.len();
    assert(s.subrange(k + 1, j) =~= d) by {
        assert(forall|t: int|
            0 <= t < d.len() ==> #[trigger] s.subrange(k + 1, j)[t] == tail[1 + t]);
    }
    assert(s[j] == tail[j - k]);
    assert(s[j] == 41);
    lemma_parse_num_of_render(s, k + 1, b as nat, usize::MAX as int);
    assert(spec_parse_bytes_with_suffix(s, k + 1) is None);
    assert(spec_parse_bytes(s, k + 1) == Some((b as int, j)));
    assert(j + 1 == s.len());
}

/// Parser round-trip: parsing the rendered text of any grammar command
/// reproduces the command exactly and consumes the whole text.
#[verifier::rlimit(60)]
pub proof fn lemma_parse_render_roundtrip(c: CommandV)
    requires
        grammar_command(c),
    ensures
        spec_command(spec_render_command(c), 0) == Some((c, spec_render_command(c).len() as int)),
{
    let s = spec_render_command(c);
    match c {
        CommandV::NewPut(b) => {
            assert(s.subrange(0, 3) =~= kw_new());
            assert(spec_match_at(s, 0, kw_new()));
            assert(s.subrange(3, s.len() as int) =~= seq![40u8] + spec_render_num(b as nat)
                + seq![41u8]);
            lemma_paren_bytes_of_render(s, 3, b);
        },
        CommandV::Overwrite(b) => {
            assert(s[0] == 79);
            lemma_first_byte_mismatch(s, kw_new());
            assert(s.subrange(0, 9) =~= kw_overwrite());
            assert(spec_match_at(s, 0, kw_overwrite()));
            assert(s.subrange(9, s.len() as int) =~= seq![40u8] + spec_render_num(b as nat)
                + seq![41u8]);
            lemma_paren_bytes_of_render(s, 9, b);
        },
        CommandV::RandomGet => {
            assert(s == kw_get());
            assert(s[0] == 71);
            lemma_first_byte_mismatch(s, kw_new());
            lemma_first_byte_mismatch(s, kw_overwrite());
            assert(s.subrange(0, 3) =~= kw_get());
            assert(spec_match_at(s, 0, kw_get()));
            assert(spec_perc_pair(s, 3) is None);
        },
        CommandV::Get(l, r) => {
            assert(s[0] == 71);
            lemma_first_byte_mismatch(s, kw_new());
            lemma_first_byte_mismatch(s, kw_overwrite());
            assert(s.subrange(0, 3) =~= kw_get());
            assert(spec_match_at(s, 0, kw_get()));
            assert(s.subrange(3, s.len() as int) =~= seq![40u8] + spec_render_num(l as nat)
                + seq![44u8] + spec_render_num(r as nat) + seq![41u8]);
            lemma_perc_pair_of_render(s, 3, l, r);
        },
        CommandV::RandomDelete => {
            assert(s == kw_delete());
            assert(s[0] == 68);
            lemma_first_byte_mismatch(s, kw_new());
            lemma_first_byte_mismatch(s, kw_overwrite());
            lemma_first_byte_mismatch(s, kw_get());
            assert(s.subrange(0, 6) =~= kw_delete());
            assert(spec_match_at(s, 0, kw_delete()));
            assert(spec_perc_pair(s, 6) is None);
            assert(!spec_match_at(s, 0, kw_delete_range()));
        },
        CommandV::Delete(l, r) => {
            assert(s[0] == 68);
            lemma_first_byte_mismatch(s, kw_new());
            lemma_first_byte_mismatch(s, kw_overwrite());
            lemma_first_byte_mismatch(s, kw_get());
            assert(s.subrange(0, 6) =~= kw_delete());
            assert(spec_match_at(s, 0, kw_delete()));
            assert(s.subrange(6, s.len() as int) =~= seq![40u8] + spec_render_num(l as nat)
                + seq![44u8] + spec_render_num(r as nat) + seq![41u8]);
            lemma_perc_pair_of_render(s, 6, l, r);
        },
        CommandV::DeleteRange(l, r) => {
            assert(s[0] == 68);
            lemma_first_byte_mismatch(s, kw_new());
            lemma_first_byte_mismatch(s, kw_overwrite());
            lemma_first_byte_mismatch(s, kw_get());
            assert(s.subrange(0, 6) =~= kw_delete());
            assert(spec_match_at(s, 0, kw_delete()));
            assert(s[6] == 82);
            assert(spec_perc_pair(s, 6) is None);
            assert(s.subrange(0, 11) =~= kw_delete_range());
            assert(spec_match_at(s, 0, kw_delete_range()));
            assert(s.subrange(11, s.len() as int) =~= seq![40u8] + spec_render_num(l as nat)
                + seq![44u8] + spec_render_num(r as nat) + seq![41u8]);
            lemma_perc_pair_of_render(s, 11, l, r);
        },
        _ => {},
    }
}

/// The textual form of a frequency.
pub open spec fn spec_render_freq(f: u8) -> Seq<u8> {
    seq![60u8] + spec_render_num(f as nat) + kw_pct_close()
}

/// Parser round-trip for frequencies: parsing the rendered text of any
/// frequency reproduces it exactly and consumes the whole text.
pub proof fn lemma_parse_render_freq_roundtrip(f: u8)
    ensures
        spec_freq(spec_render_freq(f), 0) == Some((f, spec_render_freq(f).len() as int)),
{
    let s = spec_render_freq(f);
    let d = spec_render_num(f as nat);
    lemma_render_num_digits(f as nat);
    assert(s[0] == 60);
    let j = 1 + d.len() as int;
    assert(s.subrange(1, j) =~= d) by {
        assert(forall|t: int| 0 <= t < d.len() ==> #[trigger] s.subrange(1, j)[t] == s[1 + t]);
    }
    assert(s[j] == 37);
    assert(s[j + 1] == 62);
    lemma_parse_num_of_render(s, 1, f as nat, 255);
    assert(s.subrange(j, j + 2) =~= kw_pct_close());
    assert(spec_match_at(s, j, kw_pct_close()));
}

} // verus!
