//! A dependency-free 5-field cron evaluator (`minute hour day-of-month month
//! day-of-week`): parsing and next-fire computation over integer Unix seconds.
//!
//! Dialect: standard Vixie cron. Fields: minute `0-59`, hour `0-23`,
//! day-of-month `1-31`, month `1-12`, day-of-week `0-6` (0 = Sunday; `7` also
//! Sunday). Per element: `*`, `a`, `a-b`, `*/n`, `a-b/n`, `a/n`, and comma lists
//! of these. If both day-of-month and day-of-week are restricted, a match on
//! either fires; if one is `*`, only the other constrains. Times are evaluated
//! at a fixed UTC offset in minutes.
use crate::fmt::{decimal, push_decimal, push_str, string_from_chars};
use crate::keys::chars_of;
use crate::text::{find_char, first_index, lemma_first_index_bound, lemma_split_head, lemma_split_step, parse_u32, spec_parse_u32, split_on, token_spans, tokens};
use crate::timeutil::{civil, civil_from_days, floor_div_mod};
use vstd::prelude::*;

verus! {

pub const SECS_PER_MIN: i64 = 60;
pub const SECS_PER_DAY: i64 = 86_400;
/// Search horizon: about 366 days of minutes. An expression with no match in
/// that window is unsatisfiable (e.g. `0 0 30 2 *`).
pub const MAX_LOOKAHEAD_MIN: i64 = 527_040;

/// Is bit `v` of `mask` set (for `0 <= v < 64`)?
pub open spec fn has_bit(mask: u64, v: int) -> bool {
    0 <= v < 64 && (mask & (1u64 << (v as u64))) != 0
}

proof fn lemma_set_bit(m: u64, v: u64, w: u64)
    requires
        v < 64,
        w < 64,
    ensures
        ((m | (1u64 << v)) & (1u64 << w) != 0) == ((m & (1u64 << w) != 0) || v == w),
{
    assert(((m | (1u64 << v)) & (1u64 << w) != 0) == ((m & (1u64 << w) != 0) || v == w)) by (bit_vector)
        requires v < 64, w < 64;
}

proof fn lemma_clear_bit(m: u64, v: u64, w: u64)
    requires
        v < 64,
        w < 64,
    ensures
        ((m & !(1u64 << v)) & (1u64 << w) != 0) == ((m & (1u64 << w) != 0) && v != w),
{
    assert(((m & !(1u64 << v)) & (1u64 << w) != 0) == ((m & (1u64 << w) != 0) && v != w)) by (bit_vector)
        requires v < 64, w < 64;
}

proof fn lemma_zero_bits(w: u64)
    requires
        w < 64,
    ensures
        (0u64 & (1u64 << w)) == 0,
{
    assert((0u64 & (1u64 << w)) == 0) by (bit_vector);
}

/// Is bit `v` set in `mask`? (Guards `v < 64`.)
pub fn bit(mask: u64, v: u32) -> (r: bool)
    ensures
        r == has_bit(mask, v as int),
{
    v < 64 && (mask & (1u64 << v)) != 0
}

// ---------------------------------------------------------------------------
// Field syntax
// ---------------------------------------------------------------------------

/// The range text of an element: everything before the first `/`.
pub open spec fn range_text(part: Seq<char>) -> Seq<char> {
    match first_index(part, '/') {
        Some(i) => part.take(i),
        None => part,
    }
}

/// The step of an element (`1` without a `/`), or its error text.
pub open spec fn step_of(part: Seq<char>) -> Result<int, Seq<char>> {
    match first_index(part, '/') {
        Some(i) => match spec_parse_u32(part.skip(i + 1)) {
            Some(st) => if st == 0 {
                Err("step must be > 0"@)
            } else {
                Ok(st as int)
            },
            None => Err("bad step '"@ + part.skip(i + 1) + "'"@),
        },
        None => Ok(1),
    }
}

/// Was a step written (`/n`) in an element?
pub open spec fn has_step(part: Seq<char>) -> bool {
    first_index(part, '/') is Some
}

/// The bounds a range text denotes, or its error text: `*` is the whole
/// field, `a-b` itself, and a bare `a` is `a` alone, or `a` through the
/// field's maximum when a step was written (`a/n` means `a-max/n`).
pub open spec fn lohi_of(rp: Seq<char>, min: int, max: int, stepped: bool) -> Result<(int, int), Seq<char>> {
    if rp == seq!['*'] {
        Ok((min, max))
    } else {
        match first_index(rp, '-') {
            Some(j) => match spec_parse_u32(rp.take(j)) {
                None => Err("bad range start '"@ + rp.take(j) + "'"@),
                Some(a) => match spec_parse_u32(rp.skip(j + 1)) {
                    None => Err("bad range end '"@ + rp.skip(j + 1) + "'"@),
                    Some(b) => Ok((a as int, b as int)),
                },
            },
            None => match spec_parse_u32(rp) {
                None => Err("bad value '"@ + rp + "'"@),
                Some(n) => if stepped {
                    Ok((n as int, max))
                } else {
                    Ok((n as int, n as int))
                },
            },
        }
    }
}

pub open spec fn range_error(part: Seq<char>, min: int, max: int) -> Seq<char> {
    "'"@ + part + "' out of range "@ + decimal(min as nat) + "-"@ + decimal(max as nat)
}

/// The `(low, high, step)` an element denotes, or the text of its error
/// (without the field-name prefix).
pub open spec fn part_bounds(part: Seq<char>, min: int, max: int) -> Result<(int, int, int), Seq<char>> {
    match step_of(part) {
        Err(e) => Err(e),
        Ok(step) => match lohi_of(range_text(part), min, max, has_step(part)) {
            Err(e) => Err(e),
            Ok((lo, hi)) => if lo < min || hi > max || lo > hi {
                Err(range_error(part, min, max))
            } else {
                Ok((lo, hi, step))
            },
        },
    }
}

/// Does an element allow `v`?
pub open spec fn part_allows(part: Seq<char>, min: int, max: int, v: int) -> bool {
    match part_bounds(part, min, max) {
        Ok((lo, hi, step)) => lo <= v <= hi && (v - lo) % step == 0,
        Err(_) => false,
    }
}

/// The first element error of a comma list, if any.
pub open spec fn pieces_error(ps: Seq<Seq<char>>, min: int, max: int) -> Option<Seq<char>>
    decreases ps.len(),
{
    if ps.len() == 0 {
        None
    } else {
        match part_bounds(ps[0], min, max) {
            Err(e) => Some(e),
            Ok(_) => pieces_error(ps.drop_first(), min, max),
        }
    }
}

/// The error text of a field (without the name prefix), if it is invalid.
pub open spec fn field_error(tok: Seq<char>, min: int, max: int) -> Option<Seq<char>> {
    if tok.len() == 0 {
        Some("empty field"@)
    } else {
        pieces_error(split_on(tok, ','), min, max)
    }
}

/// Does a valid field allow `v`?
pub open spec fn field_allows(tok: Seq<char>, min: int, max: int, v: int) -> bool {
    exists|i: int| 0 <= i < split_on(tok, ',').len() && part_allows(#[trigger] split_on(tok, ',')[i], min, max, v)
}

/// Day-of-week: `7` is folded onto Sunday (`0`).
pub open spec fn dow_allows(tok: Seq<char>, v: int) -> bool {
    v != 7 && (field_allows(tok, 0, 7, v) || (v == 0 && field_allows(tok, 0, 7, 7)))
}

/// Split off and parse the step of element `s[lo..hi]`: the end of its range
/// text, and the step or its error text.
fn parse_step(s: &Vec<char>, lo: usize, hi: usize) -> (r: (usize, Result<u32, Vec<char>>))
    requires
        lo <= hi <= s@.len(),
    ensures
        lo <= r.0 <= hi,
        (r.0 < hi) == has_step(s@.subrange(lo as int, hi as int)),
        s@.subrange(lo as int, r.0 as int) == range_text(s@.subrange(lo as int, hi as int)),
        match step_of(s@.subrange(lo as int, hi as int)) {
            Ok(st) => r.1 matches Ok(t) && t == st,
            Err(e) => r.1 matches Err(m) && m@ == e,
        },
{
    let ghost part = s@.subrange(lo as int, hi as int);
    let slash = find_char(s, lo, hi, '/');
    proof {
        lemma_first_index_bound(part, '/');
    }
    match slash {
        Some(i) => {
            proof {
                assert(s@.subrange(lo as int, i as int) =~= part.take(i - lo));
                assert(s@.subrange(i + 1, hi as int) =~= part.skip(i - lo + 1));
            }
            match parse_u32(s, i + 1, hi) {
                Some(st) => {
                    if st == 0 {
                        let mut m: Vec<char> = Vec::new();
                        push_str(&mut m, "step must be > 0");
                        (i, Err(m))
                    } else {
                        (i, Ok(st))
                    }
                },
                None => {
                    let mut m: Vec<char> = Vec::new();
                    push_str(&mut m, "bad step '");
                    push_range(&mut m, s, i + 1, hi);
                    push_str(&mut m, "'");
                    (i, Err(m))
                },
            }
        },
        None => {
            proof {
                assert(s@.subrange(lo as int, hi as int) =~= part);
            }
            (hi, Ok(1u32))
        },
    }
}

/// Parse range text `s[lo..hi]` under `step` into its bounds, or its error text.
fn parse_lohi(s: &Vec<char>, lo: usize, hi: usize, min: u32, max: u32, stepped: bool) -> (r: Result<(u32, u32), Vec<char>>)
    requires
        lo <= hi <= s@.len(),
    ensures
        match lohi_of(s@.subrange(lo as int, hi as int), min as int, max as int, stepped) {
            Ok((a, b)) => r matches Ok(t) && t.0 == a && t.1 == b,
            Err(e) => r matches Err(m) && m@ == e,
        },
{
    let ghost rp = s@.subrange(lo as int, hi as int);
    let is_star = hi - lo == 1 && s[lo] == '*';
    proof {
        if is_star {
            assert(rp =~= seq!['*']);
        } else if rp.len() == 1 {
            assert(rp[0] == s@[lo as int]);
        }
    }
    if is_star {
        return Ok((min, max));
    }
    let dash = find_char(s, lo, hi, '-');
    proof {
        lemma_first_index_bound(rp, '-');
    }
    match dash {
        Some(j) => {
            proof {
                assert(s@.subrange(lo as int, j as int) =~= rp.take(j - lo));
                assert(s@.subrange(j + 1, hi as int) =~= rp.skip(j - lo + 1));
            }
            match parse_u32(s, lo, j) {
                None => {
                    let mut m: Vec<char> = Vec::new();
                    push_str(&mut m, "bad range start '");
                    push_range(&mut m, s, lo, j);
                    push_str(&mut m, "'");
                    Err(m)
                },
                Some(x) => match parse_u32(s, j + 1, hi) {
                    None => {
                        let mut m: Vec<char> = Vec::new();
                        push_str(&mut m, "bad range end '");
                        push_range(&mut m, s, j + 1, hi);
                        push_str(&mut m, "'");
                        Err(m)
                    },
                    Some(y) => Ok((x, y)),
                },
            }
        },
        None => match parse_u32(s, lo, hi) {
            None => {
                let mut m: Vec<char> = Vec::new();
                push_str(&mut m, "bad value '");
                push_range(&mut m, s, lo, hi);
                push_str(&mut m, "'");
                Err(m)
            },
            Some(n) => if stepped {
                Ok((n, max))
            } else {
                Ok((n, n))
            },
        },
    }
}

/// Parse one element `s[lo..hi]` into `(low, high, step)`, or its error text.
fn parse_part(s: &Vec<char>, lo: usize, hi: usize, min: u32, max: u32) -> (r: Result<(u32, u32, u32), Vec<char>>)
    requires
        lo <= hi <= s@.len(),
        min <= max,
    ensures
        match part_bounds(s@.subrange(lo as int, hi as int), min as int, max as int) {
            Ok((a, b, st)) => r matches Ok(t) && t.0 == a && t.1 == b && t.2 == st,
            Err(e) => r matches Err(m) && m@ == e,
        },
{
    let (rhi, step_res) = parse_step(s, lo, hi);
    let step = match step_res {
        Err(m) => {
            return Err(m);
        },
        Ok(st) => st,
    };
    match parse_lohi(s, lo, rhi, min, max, rhi < hi) {
        Err(m) => Err(m),
        Ok((a, b)) => {
            if a < min || b > max || a > b {
                let mut m: Vec<char> = Vec::new();
                push_str(&mut m, "'");
                push_range(&mut m, s, lo, hi);
                push_str(&mut m, "' out of range ");
                push_decimal(&mut m, min as u64);
                push_str(&mut m, "-");
                push_decimal(&mut m, max as u64);
                Err(m)
            } else {
                Ok((a, b, step))
            }
        },
    }
}

/// Append `s[lo..hi]`.
fn push_range(out: &mut Vec<char>, s: &Vec<char>, lo: usize, hi: usize)
    requires
        lo <= hi <= s@.len(),
    ensures
        final(out)@ == old(out)@ + s@.subrange(lo as int, hi as int),
{
    let ghost before = out@;
    let mut k = lo;
    while k < hi
        invariant
            lo <= k <= hi,
            hi <= s@.len(),
            out@ == before + s@.subrange(lo as int, k as int),
        decreases hi - k,
    {
        out.push(s[k]);
        k = k + 1;
        proof {
            assert(out@ =~= before + s@.subrange(lo as int, k as int));
        }
    }
}

/// Set the bits `lo, lo + step, ...` up to `hi`.
fn set_range(mask: u64, lo: u32, hi: u32, step: u32) -> (r: u64)
    requires
        hi < 64,
        step > 0,
    ensures
        forall|v: int| 0 <= v < 64 ==> #[trigger] has_bit(r, v) == (has_bit(mask, v) || (lo <= v <= hi && (v - lo) % (step as int) == 0)),
{
    let mut m = mask;
    let mut v: u64 = lo as u64;
    proof {
        assert((v - lo) % (step as int) == 0) by (nonlinear_arith)
            requires v == lo, step > 0;
    }
    while v <= hi as u64
        invariant
            hi < 64,
            step > 0,
            lo <= v,
            v <= hi as int + step as int || v == lo,
            (v - lo) % (step as int) == 0,
            forall|w: int| 0 <= w < 64 ==> #[trigger] has_bit(m, w) == (has_bit(mask, w) || (lo <= w < v && w <= hi && (w - lo) % (step as int) == 0)),
        decreases (hi as int + step as int + lo as int + 1) - v,
    {
        let ghost old_m = m;
        m = m | (1u64 << v);
        proof {
            assert forall|w: int| 0 <= w < 64 implies #[trigger] has_bit(m, w) == (has_bit(old_m, w) || w == v) by {
                lemma_set_bit(old_m, v, w as u64);
            }
        }
        let ghost ov = v;
        v = v + step as u64;
        proof {
            assert((v - lo) % (step as int) == 0) by (nonlinear_arith)
                requires v == ov + step, (ov - lo) % (step as int) == 0, step > 0, ov >= lo;
            assert forall|w: int| 0 <= w < 64 implies #[trigger] has_bit(m, w) == (has_bit(mask, w) || (lo <= w < v && w <= hi && (w - lo) % (step as int) == 0)) by {
                if ov < w < v && lo <= w {
                    assert((w - lo) % (step as int) != 0) by (nonlinear_arith)
                        requires ov < w < ov + step, (ov - lo) % (step as int) == 0, step > 0, ov >= lo;
                }
            }
        }
    }
    m
}

/// Adding one more element's bits keeps the mask equal to "some element so
/// far allows `v`".
proof fn lemma_mask_extend(all: Seq<Seq<char>>, done: int, min: int, max: int, old_mask: u64, mask: u64)
    requires
        0 <= done < all.len(),
        forall|v: int| 0 <= v < 64 ==> #[trigger] has_bit(old_mask, v) == (exists|i: int| 0 <= i < done && part_allows(#[trigger] all[i], min, max, v)),
        forall|v: int| 0 <= v < 64 ==> #[trigger] has_bit(mask, v) == (has_bit(old_mask, v) || part_allows(all[done], min, max, v)),
    ensures
        forall|v: int| 0 <= v < 64 ==> #[trigger] has_bit(mask, v) == (exists|i: int| 0 <= i < done + 1 && part_allows(#[trigger] all[i], min, max, v)),
{
    assert forall|v: int| 0 <= v < 64 implies #[trigger] has_bit(mask, v) == (exists|i: int| 0 <= i < done + 1 && part_allows(#[trigger] all[i], min, max, v)) by {
        if has_bit(mask, v) {
            if !has_bit(old_mask, v) {
                assert(part_allows(all[done], min, max, v));
            } else {
                let i = choose|i: int| 0 <= i < done && part_allows(#[trigger] all[i], min, max, v);
                assert(0 <= i < done + 1);
            }
        }
        if exists|i: int| 0 <= i < done + 1 && part_allows(#[trigger] all[i], min, max, v) {
            let i = choose|i: int| 0 <= i < done + 1 && part_allows(#[trigger] all[i], min, max, v);
            if i < done {
                assert(has_bit(old_mask, v));
            }
        }
    }
}

/// Parse `s[lo..hi]` as one field over `[min, max]` into a bit mask, or its
/// error text (without the name prefix).
fn parse_field_chars(s: &Vec<char>, lo: usize, hi: usize, min: u32, max: u32) -> (r: Result<u64, Vec<char>>)
    requires
        lo <= hi <= s@.len(),
        min <= max < 64,
    ensures
        match field_error(s@.subrange(lo as int, hi as int), min as int, max as int) {
            Some(e) => r matches Err(m) && m@ == e,
            None => r matches Ok(mask) && forall|v: int| 0 <= v < 64 ==> #[trigger] has_bit(mask, v) == field_allows(
                s@.subrange(lo as int, hi as int),
                min as int,
                max as int,
                v,
            ),
        },
{
    let ghost tok = s@.subrange(lo as int, hi as int);
    if lo == hi {
        let mut m: Vec<char> = Vec::new();
        push_str(&mut m, "empty field");
        return Err(m);
    }
    let ghost all = split_on(tok, ',');
    let mut mask: u64 = 0;
    let mut start = lo;
    let ghost mut done: int = 0;
    proof {
        assert(s@.subrange(start as int, hi as int) =~= tok);
        assert forall|w: int| 0 <= w < 64 implies !#[trigger] has_bit(0u64, w) by {
            lemma_zero_bits(w as u64);
        }
    }
    loop
        invariant
            lo < hi,
            lo <= start <= hi,
            hi <= s@.len(),
            min <= max < 64,
            tok == s@.subrange(lo as int, hi as int),
            tok.len() > 0,
            all == split_on(tok, ','),
            0 <= done <= all.len(),
            all == all.take(done) + split_on(s@.subrange(start as int, hi as int), ','),
            pieces_error(all, min as int, max as int) == pieces_error(split_on(s@.subrange(start as int, hi as int), ','), min as int, max as int),
            forall|v: int| 0 <= v < 64 ==> #[trigger] has_bit(mask, v) == (exists|i: int| 0 <= i < done && part_allows(#[trigger] all[i], min as int, max as int, v)),
        decreases hi - start + 1,
    {
        let ghost rest = s@.subrange(start as int, hi as int);
        let comma = find_char(s, start, hi, ',');
        let piece_end = match comma {
            Some(j) => j,
            None => hi,
        };
        let ghost at: Option<int> = match comma {
            Some(j) => Some(j - start),
            None => None,
        };
        proof {
            lemma_first_index_bound(rest, ',');
            lemma_split_head(rest, ',', at, piece_end - start);
            assert(rest.take(piece_end - start) =~= s@.subrange(start as int, piece_end as int));
            assert(all[done] == split_on(rest, ',')[0]);
        }
        match parse_part(s, start, piece_end, min, max) {
            Err(m) => {
                return Err(m);
            },
            Ok((a, b, st)) => {
                let ghost old_mask = mask;
                mask = set_range(mask, a, b, st);
                proof {
                    lemma_mask_extend(all, done, min as int, max as int, old_mask, mask);
                }
                let ghost ps = split_on(rest, ',');
                match comma {
                    Some(j) => {
                        proof {
                            assert(rest.skip(j - start + 1) =~= s@.subrange(j + 1, hi as int));
                            assert(all.take(done + 1) =~= all.take(done).push(all[done]));
                            assert(all =~= all.take(done + 1) + ps.drop_first());
                            done = done + 1;
                        }
                        start = j + 1;
                    },
                    None => {
                        proof {
                            done = done + 1;
                            assert(all.len() == done);
                            assert(pieces_error(ps, min as int, max as int) == pieces_error(ps.drop_first(), min as int, max as int));
                            assert(pieces_error(ps.drop_first(), min as int, max as int) is None);
                            assert forall|v: int| 0 <= v < 64 implies #[trigger] has_bit(mask, v) == field_allows(tok, min as int, max as int, v) by {
                            }
                        }
                        return Ok(mask);
                    },
                }
            },
        }
    }
}

/// `name: text`, the shape of every field error.
pub open spec fn named(name: Seq<char>, e: Seq<char>) -> Seq<char> {
    name + ": "@ + e
}

/// Parse field `s[lo..hi]` over `[min, max]`; errors carry the field's name.
fn parse_field(s: &Vec<char>, lo: usize, hi: usize, min: u32, max: u32, name: &str) -> (r: Result<u64, String>)
    requires
        lo <= hi <= s@.len(),
        min <= max < 64,
    ensures
        match field_error(s@.subrange(lo as int, hi as int), min as int, max as int) {
            Some(e) => r matches Err(m) && m@ == named(name@, e),
            None => r matches Ok(mask) && forall|v: int| 0 <= v < 64 ==> #[trigger] has_bit(mask, v) == field_allows(
                s@.subrange(lo as int, hi as int),
                min as int,
                max as int,
                v,
            ),
        },
{
    match parse_field_chars(s, lo, hi, min, max) {
        Ok(mask) => Ok(mask),
        Err(e) => {
            let mut m: Vec<char> = Vec::new();
            push_str(&mut m, name);
            push_str(&mut m, ": ");
            let ghost before = m@;
            let mut k: usize = 0;
            while k < e.len()
                invariant
                    k <= e@.len(),
                    m@ == before + e@.take(k as int),
                decreases e@.len() - k,
            {
                m.push(e[k]);
                k = k + 1;
                proof {
                    assert(m@ =~= before + e@.take(k as int));
                }
            }
            proof {
                assert(e@.take(e@.len() as int) =~= e@);
                assert(m@ =~= named(name@, e@));
            }
            Err(string_from_chars(&m))
        },
    }
}

/// Day-of-week field `0-7`, with `7` folded onto Sunday (`0`).
fn parse_dow(s: &Vec<char>, lo: usize, hi: usize) -> (r: Result<u64, String>)
    requires
        lo <= hi <= s@.len(),
    ensures
        match field_error(s@.subrange(lo as int, hi as int), 0, 7) {
            Some(e) => r matches Err(m) && m@ == named("day-of-week"@, e),
            None => r matches Ok(mask) && forall|v: int| 0 <= v < 64 ==> #[trigger] has_bit(mask, v) == dow_allows(
                s@.subrange(lo as int, hi as int),
                v,
            ),
        },
{
    let ghost tok = s@.subrange(lo as int, hi as int);
    let mut mask = match parse_field(s, lo, hi, 0, 7, "day-of-week") {
        Err(m) => {
            return Err(m);
        },
        Ok(mask) => mask,
    };
    proof {
        assert forall|v: int| 7 < v < 64 implies !field_allows(tok, 0, 7, v) by {
            if field_allows(tok, 0, 7, v) {
                let i = choose|i: int| 0 <= i < split_on(tok, ',').len() && part_allows(#[trigger] split_on(tok, ',')[i], 0, 7, v);
            }
        }
    }
    if bit(mask, 7) {
        let ghost m0 = mask;
        mask = mask | (1u64 << 0u64);
        let ghost m1 = mask;
        mask = mask & !(1u64 << 7u64);
        proof {
            assert forall|w: int| 0 <= w < 64 implies #[trigger] has_bit(mask, w) == ((has_bit(m0, w) || w == 0) && w != 7) by {
                lemma_set_bit(m0, 0, w as u64);
                lemma_clear_bit(m1, 7, w as u64);
            }
        }
    }
    Ok(mask)
}

/// A parsed five-field cron expression: one bit mask of allowed values per
/// field (minute, hour, day-of-month, month, day-of-week), and whether
/// day-of-month and day-of-week were restricted (not `*`), which selects how
/// the two combine.
#[derive(Debug, Clone, PartialEq, Eq)]
pub struct Cron {
    minute: u64,
    hour: u64,
    dom: u64,
    month: u64,
    dow: u64,
    dom_restricted: bool,
    dow_restricted: bool,
}

/// Why an expression (split into whitespace tokens) is rejected, if it is.
pub open spec fn cron_error(toks: Seq<Seq<char>>) -> Option<Seq<char>> {
    if toks.len() != 5 {
        Some("cron needs exactly 5 fields (minute hour day-of-month month day-of-week), got "@ + decimal(toks.len()))
    } else if field_error(toks[0], 0, 59) is Some {
        Some(named("minute"@, field_error(toks[0], 0, 59)->0))
    } else if field_error(toks[1], 0, 23) is Some {
        Some(named("hour"@, field_error(toks[1], 0, 23)->0))
    } else if field_error(toks[2], 1, 31) is Some {
        Some(named("day-of-month"@, field_error(toks[2], 1, 31)->0))
    } else if field_error(toks[3], 1, 12) is Some {
        Some(named("month"@, field_error(toks[3], 1, 12)->0))
    } else if field_error(toks[4], 0, 7) is Some {
        Some(named("day-of-week"@, field_error(toks[4], 0, 7)->0))
    } else {
        None
    }
}

/// A civil minute of the local day: month and day 1-based, weekday 0 = Sunday.
pub open spec fn civil_minute(m: int) -> (int, int, int, int, int) {
    let local = m * 60;
    let days = local / 86_400;
    let tod = local % 86_400;
    let c = civil(days);
    (c.1, c.2, (days % 7 + 4) % 7, tod / 3600, (tod % 3600) / 60)
}

/// Minutes since the epoch (floor) of local time `now + off` minutes.
pub open spec fn local_minute(now: int, off: int) -> int {
    (now + off * 60) / 60
}

/// `next_after` stays within `i64` for these arguments.
pub open spec fn next_after_in_range(now: int, off: int) -> bool {
    &&& i64::MIN <= now + off * 60
    &&& now + off * 60 + 60 * (MAX_LOOKAHEAD_MIN + 1) <= i64::MAX
    &&& now + 60 * (MAX_LOOKAHEAD_MIN + 1) <= i64::MAX
}

impl Cron {
    pub closed spec fn masks(&self) -> (u64, u64, u64, u64, u64) {
        (self.minute, self.hour, self.dom, self.month, self.dow)
    }

    pub closed spec fn restricted(&self) -> (bool, bool) {
        (self.dom_restricted, self.dow_restricted)
    }

    /// Does the expression fire in the local minute `(mo, d, wd, h, mi)`?
    /// Minute, hour and month must allow it; day-of-month and day-of-week
    /// combine by "either" when both are restricted, else only the
    /// restricted one counts.
    pub open spec fn fires(&self, mo: int, d: int, wd: int, h: int, mi: int) -> bool {
        let (mm, hm, dm, mom, wm) = self.masks();
        let (dr, wr) = self.restricted();
        &&& has_bit(mm, mi)
        &&& has_bit(hm, h)
        &&& has_bit(mom, mo)
        &&& if dr && wr {
            has_bit(dm, d) || has_bit(wm, wd)
        } else if dr {
            has_bit(dm, d)
        } else if wr {
            has_bit(wm, wd)
        } else {
            true
        }
    }

    /// Does the expression fire in local minute number `m` (minutes since the
    /// epoch, local time)?
    pub open spec fn fires_at(&self, m: int) -> bool {
        let t = civil_minute(m);
        self.fires(t.0, t.1, t.2, t.3, t.4)
    }

    /// The first of `n` consecutive local minutes from `m` in which the
    /// expression fires.
    pub open spec fn scan_fire(&self, m: int, n: nat) -> Option<int>
        decreases n,
    {
        if n == 0 {
            None
        } else if self.fires_at(m) {
            Some(m)
        } else {
            self.scan_fire(m + 1, (n - 1) as nat)
        }
    }

    /// The next fire strictly after `now` (UTC seconds) at UTC offset `off`
    /// minutes: the first firing local minute after the current one within the
    /// horizon, converted back to UTC seconds.
    pub open spec fn next_fire(&self, now: int, off: int) -> Option<int> {
        match self.scan_fire(local_minute(now, off) + 1, MAX_LOOKAHEAD_MIN as nat) {
            Some(m) => Some(m * 60 - off * 60),
            None => None,
        }
    }

    /// The masks hold exactly what the five fields allow.
    pub open spec fn described_by(&self, toks: Seq<Seq<char>>) -> bool {
        let (mm, hm, dm, mom, wm) = self.masks();
        &&& toks.len() == 5
        &&& forall|v: int| 0 <= v < 64 ==> #[trigger] has_bit(mm, v) == field_allows(toks[0], 0, 59, v)
        &&& forall|v: int| 0 <= v < 64 ==> #[trigger] has_bit(hm, v) == field_allows(toks[1], 0, 23, v)
        &&& forall|v: int| 0 <= v < 64 ==> #[trigger] has_bit(dm, v) == field_allows(toks[2], 1, 31, v)
        &&& forall|v: int| 0 <= v < 64 ==> #[trigger] has_bit(mom, v) == field_allows(toks[3], 1, 12, v)
        &&& forall|v: int| 0 <= v < 64 ==> #[trigger] has_bit(wm, v) == dow_allows(toks[4], v)
        &&& self.restricted().0 == (toks[2] != seq!['*'])
        &&& self.restricted().1 == (toks[4] != seq!['*'])
    }

    /// Parse a five-field cron expression, or say why it is rejected.
    pub fn parse(expr: &str) -> (r: Result<Cron, String>)
        ensures
            match cron_error(tokens(expr@)) {
                Some(e) => r matches Err(m) && m@ == e,
                None => r matches Ok(c) && c.described_by(tokens(expr@)),
            },
    {
        let s = chars_of(expr);
        let spans = token_spans(&s);
        let ghost toks = tokens(expr@);
        if spans.len() != 5 {
            let mut m: Vec<char> = Vec::new();
            push_str(&mut m, "cron needs exactly 5 fields (minute hour day-of-month month day-of-week), got ");
            push_decimal(&mut m, spans.len() as u64);
            return Err(string_from_chars(&m));
        }
        proof {
            assert(spans@[0] == spans@[0]);
            assert(spans@[1] == spans@[1]);
            assert(spans@[2] == spans@[2]);
            assert(spans@[3] == spans@[3]);
            assert(spans@[4] == spans@[4]);
        }
        let minute = parse_field(&s, spans[0].0, spans[0].1, 0, 59, "minute")?;
        let hour = parse_field(&s, spans[1].0, spans[1].1, 0, 23, "hour")?;
        let dom = parse_field(&s, spans[2].0, spans[2].1, 1, 31, "day-of-month")?;
        let month = parse_field(&s, spans[3].0, spans[3].1, 1, 12, "month")?;
        let dow = parse_dow(&s, spans[4].0, spans[4].1)?;
        let dom_restricted = !(spans[2].1 - spans[2].0 == 1 && s[spans[2].0] == '*');
        let dow_restricted = !(spans[4].1 - spans[4].0 == 1 && s[spans[4].0] == '*');
        proof {
            let t2 = toks[2];
            let t4 = toks[4];
            if t2.len() == 1 {
                assert(t2[0] == s@[spans@[2].0 as int]);
            }
            if t4.len() == 1 {
                assert(t4[0] == s@[spans@[4].0 as int]);
            }
            assert(!dom_restricted ==> t2 =~= seq!['*']);
            assert(!dow_restricted ==> t4 =~= seq!['*']);
        }
        Ok(Cron { minute, hour, dom, month, dow, dom_restricted, dow_restricted })
    }

    /// Does the expression fire in the local minute `(mo, d, wd, h, mi)`?
    fn matches(&self, mo: u32, d: u32, wd: u32, h: u32, mi: u32) -> (r: bool)
        ensures
            r == self.fires(mo as int, d as int, wd as int, h as int, mi as int),
    {
        if !(bit(self.minute, mi) && bit(self.hour, h) && bit(self.month, mo)) {
            return false;
        }
        let dom_ok = bit(self.dom, d);
        let dow_ok = bit(self.dow, wd);
        match (self.dom_restricted, self.dow_restricted) {
            (true, true) => dom_ok || dow_ok,
            (true, false) => dom_ok,
            (false, true) => dow_ok,
            (false, false) => true,
        }
    }

    /// The next fire strictly after `now_unix` (UTC seconds), evaluating the
    /// expression in local time `UTC + offset_minutes`: the start (`:00`) of
    /// the first matching local minute after the current one, as UTC seconds,
    /// or `None` when no minute within the lookahead horizon matches.
    pub fn next_after(&self, now_unix: i64, offset_minutes: i32) -> (r: Option<i64>)
        requires
            next_after_in_range(now_unix as int, offset_minutes as int),
        ensures
            match r {
                Some(t) => self.next_fire(now_unix as int, offset_minutes as int) == Some(t as int),
                None => self.next_fire(now_unix as int, offset_minutes as int) is None,
            },
    {
        let offset: i64 = offset_minutes as i64 * SECS_PER_MIN;
        let local_now: i64 = now_unix + offset;
        let (q, _rem) = floor_div_mod(local_now, SECS_PER_MIN);
        let first: i64 = q + 1;
        let ghost g_first = first as int;
        let mut min_idx: i64 = first;
        let mut k: i64 = 0;
        while k < MAX_LOOKAHEAD_MIN
            invariant
                0 <= k <= MAX_LOOKAHEAD_MIN,
                min_idx == g_first + k,
                g_first == local_minute(now_unix as int, offset_minutes as int) + 1,
                offset == offset_minutes * 60,
                local_now == now_unix + offset,
                g_first * 60 > local_now,
                g_first * 60 <= local_now + 60,
                local_now + 60 * (MAX_LOOKAHEAD_MIN + 1) <= i64::MAX,
                now_unix + 60 * (MAX_LOOKAHEAD_MIN + 1) <= i64::MAX,
                self.scan_fire(g_first, MAX_LOOKAHEAD_MIN as nat) == self.scan_fire(min_idx as int, (MAX_LOOKAHEAD_MIN - k) as nat),
            decreases MAX_LOOKAHEAD_MIN - k,
        {
            let local: i64 = min_idx * SECS_PER_MIN;
            let (days, tod) = floor_div_mod(local, SECS_PER_DAY);
            let h: i64 = tod / 3600;
            let mi: i64 = (tod % 3600) / 60;
            let (_y, mo, d) = civil_from_days(days);
            let (_w, wr) = floor_div_mod(days, 7);
            let wd: i64 = (wr + 4) % 7;
            proof {
                assert(civil_minute(min_idx as int) == (mo as int, d as int, wd as int, h as int, mi as int));
            }
            if self.matches(mo as u32, d as u32, wd as u32, h as u32, mi as u32) {
                return Some(local - offset);
            }
            min_idx = min_idx + 1;
            k = k + 1;
        }
        None
    }
}

proof fn lemma_scan_fire(c: &Cron, m: int, n: nat)
    ensures
        match c.scan_fire(m, n) {
            Some(k) => m <= k < m + n && c.fires_at(k) && forall|j: int| m <= j < k ==> !#[trigger] c.fires_at(j),
            None => forall|j: int| m <= j < m + n ==> !#[trigger] c.fires_at(j),
        },
    decreases n,
{
    if n > 0 && !c.fires_at(m) {
        lemma_scan_fire(c, m + 1, (n - 1) as nat);
    }
}

/// The next fire lands on the start (`:00`) of a local minute strictly after
/// `now`; the expression fires in that minute and in no minute between now and
/// then. With no fire, no minute of the horizon matches.
pub proof fn law_next_fire_is_first_match(c: &Cron, now: int, off: int)
    ensures
        match c.next_fire(now, off) {
            Some(t) => {
                let m = (t + off * 60) / 60;
                &&& t > now
                &&& (t + off * 60) % 60 == 0
                &&& local_minute(now, off) < m <= local_minute(now, off) + MAX_LOOKAHEAD_MIN
                &&& c.fires_at(m)
                &&& forall|j: int| local_minute(now, off) < j < m ==> !#[trigger] c.fires_at(j)
            },
            None => forall|j: int|
                local_minute(now, off) < j <= local_minute(now, off) + MAX_LOOKAHEAD_MIN ==> !#[trigger] c.fires_at(j),
        },
{
    let first = local_minute(now, off) + 1;
    lemma_scan_fire(c, first, MAX_LOOKAHEAD_MIN as nat);
    match c.scan_fire(first, MAX_LOOKAHEAD_MIN as nat) {
        Some(m) => {
            let t = m * 60 - off * 60;
            assert((t + off * 60) / 60 == m && (t + off * 60) % 60 == 0) by (nonlinear_arith)
                requires t == m * 60 - off * 60;
            assert(t > now) by (nonlinear_arith)
                requires t == m * 60 - off * 60, m >= first, first == (now + off * 60) / 60 + 1;
        },
        None => {},
    }
}

} // verus!
