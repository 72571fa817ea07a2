//! Character-level text scanning: whitespace-separated tokens, first
//! occurrence of a character, and decimal `u32` parsing as `str::parse` does
//! it.
use vstd::prelude::*;

verus! {

/// Unicode `White_Space`, as `char::is_whitespace` tests it.
pub open spec fn is_ws(c: char) -> bool {
    ('\u{9}' <= c && c <= '\u{d}') || c == ' ' || c == '\u{85}' || c == '\u{a0}' || c == '\u{1680}'
        || ('\u{2000}' <= c && c <= '\u{200a}') || c == '\u{2028}' || c == '\u{2029}' || c == '\u{202f}'
        || c == '\u{205f}' || c == '\u{3000}'
}

pub fn is_whitespace(c: char) -> (r: bool)
    ensures
        r == is_ws(c),
{
    ('\u{9}' <= c && c <= '\u{d}') || c == ' ' || c == '\u{85}' || c == '\u{a0}' || c == '\u{1680}'
        || ('\u{2000}' <= c && c <= '\u{200a}') || c == '\u{2028}' || c == '\u{2029}' || c == '\u{202f}'
        || c == '\u{205f}' || c == '\u{3000}'
}

/// Length of the leading run of non-whitespace characters.
pub open spec fn run_len(s: Seq<char>) -> nat
    decreases s.len(),
{
    if s.len() == 0 || is_ws(s[0]) {
        0
    } else {
        1 + run_len(s.drop_first())
    }
}

/// The maximal runs of non-whitespace characters, as `split_whitespace`
/// yields them.
pub open spec fn tokens(s: Seq<char>) -> Seq<Seq<char>>
    decreases s.len(),
{
    if s.len() == 0 {
        Seq::empty()
    } else if is_ws(s[0]) {
        tokens(s.drop_first())
    } else {
        let n = run_len(s);
        if n == 0 || n > s.len() {
            Seq::empty()
        } else {
            seq![s.take(n as int)] + tokens(s.skip(n as int))
        }
    }
}

proof fn lemma_run_len_bound(s: Seq<char>)
    ensures
        run_len(s) <= s.len(),
        forall|i: int| 0 <= i < run_len(s) ==> !is_ws(#[trigger] s[i]),
        run_len(s) < s.len() ==> is_ws(s[run_len(s) as int]),
    decreases s.len(),
{
    if s.len() > 0 && !is_ws(s[0]) {
        lemma_run_len_bound(s.drop_first());
        assert forall|i: int| 0 <= i < run_len(s) implies !is_ws(#[trigger] s[i]) by {
            if i > 0 {
                assert(s[i] == s.drop_first()[i - 1]);
            }
        }
    }
}

/// The run length starting at `i` is the distance to the next whitespace.
proof fn lemma_run_from(s: Seq<char>, i: int, j: int)
    requires
        0 <= i <= j <= s.len(),
        forall|k: int| i <= k < j ==> !is_ws(#[trigger] s[k]),
        j == s.len() || is_ws(s[j]),
    ensures
        run_len(s.skip(i)) == j - i,
    decreases j - i,
{
    if i < j {
        lemma_run_from(s, i + 1, j);
        assert(s.skip(i).drop_first() =~= s.skip(i + 1));
    } else {
        if j < s.len() {
            assert(s.skip(i)[0] == s[j]);
        }
    }
}

/// Token boundaries `(start, end)` of `s`, in order.
pub fn token_spans(s: &Vec<char>) -> (r: Vec<(usize, usize)>)
    ensures
        r@.len() == tokens(s@).len(),
        forall|t: int| #![trigger r@[t]] 0 <= t < r@.len() ==> r@[t].0 < r@[t].1 <= s@.len() && s@.subrange(
            r@[t].0 as int,
            r@[t].1 as int,
        ) == tokens(s@)[t],
{
    let mut out: Vec<(usize, usize)> = Vec::new();
    let mut i: usize = 0;
    let n = s.len();
    proof {
        assert(s@.skip(0) =~= s@);
        assert(Seq::new(0nat, |t: int| s@.subrange(out@[t].0 as int, out@[t].1 as int)) + tokens(s@) =~= tokens(s@));
    }
    while i < n
        invariant
            i <= n,
            n == s@.len(),
            tokens(s@) == Seq::new(out@.len(), |t: int| s@.subrange(out@[t].0 as int, out@[t].1 as int)) + tokens(
                s@.skip(i as int),
            ),
            forall|t: int| 0 <= t < out@.len() ==> #[trigger] out@[t].0 < out@[t].1 <= i,
        decreases n - i,
    {
        let ghost prev = Seq::new(out@.len(), |t: int| s@.subrange(out@[t].0 as int, out@[t].1 as int));
        if is_whitespace(s[i]) {
            proof {
                assert(s@.skip(i as int)[0] == s@[i as int]);
                assert(s@.skip(i as int).drop_first() =~= s@.skip(i + 1));
            }
            i = i + 1;
        } else {
            let start = i;
            let mut j = i;
            while j < n && !is_whitespace(s[j])
                invariant
                    start <= j <= n,
                    n == s@.len(),
                    forall|k: int| start <= k < j ==> !is_ws(#[trigger] s@[k]),
                decreases n - j,
            {
                j = j + 1;
            }
            proof {
                lemma_run_from(s@, start as int, j as int);
                let rest = s@.skip(start as int);
                assert(rest[0] == s@[start as int]);
                assert(rest.take((j - start) as int) =~= s@.subrange(start as int, j as int));
                assert(rest.skip((j - start) as int) =~= s@.skip(j as int));
            }
            let ghost old_out = out@;
            out.push((start, j));
            proof {
                assert forall|t: int| 0 <= t < out@.len() implies #[trigger] out@[t].0 < out@[t].1 <= j by {
                    if t < old_out.len() {
                        assert(out@[t] == old_out[t]);
                    }
                }
                let now = Seq::new(out@.len(), |t: int| s@.subrange(out@[t].0 as int, out@[t].1 as int));
                assert(now =~= prev.push(s@.subrange(start as int, j as int)));
                assert(tokens(s@) =~= now + tokens(s@.skip(j as int)));
            }
            i = j;
        }
    }
    proof {
        assert(s@.skip(n as int) =~= Seq::<char>::empty());
        let built = Seq::new(out@.len(), |t: int| s@.subrange(out@[t].0 as int, out@[t].1 as int));
        assert(tokens(s@) =~= built);
        assert forall|t: int| #![trigger out@[t]] 0 <= t < out@.len() implies out@[t].0 < out@[t].1 <= s@.len() && s@.subrange(
            out@[t].0 as int,
            out@[t].1 as int,
        ) == tokens(s@)[t] by {
            assert(built[t] == s@.subrange(out@[t].0 as int, out@[t].1 as int));
        }
    }
    out
}

/// Index of the first occurrence of `c`.
pub open spec fn first_index(s: Seq<char>, c: char) -> Option<int>
    decreases s.len(),
{
    if s.len() == 0 {
        None
    } else if s[0] == c {
        Some(0)
    } else {
        match first_index(s.drop_first(), c) {
            Some(i) => Some(i + 1),
            None => None,
        }
    }
}

pub proof fn lemma_first_index(s: Seq<char>, c: char, i: int)
    requires
        0 <= i <= s.len(),
        forall|k: int| 0 <= k < i ==> #[trigger] s[k] != c,
    ensures
        i < s.len() && s[i] == c ==> first_index(s, c) == Some(i),
        i == s.len() ==> first_index(s, c) is None,
    decreases i,
{
    if i > 0 {
        assert forall|k: int| 0 <= k < i - 1 implies #[trigger] s.drop_first()[k] != c by {
            assert(s.drop_first()[k] == s[k + 1]);
        }
        lemma_first_index(s.drop_first(), c, i - 1);
        if i < s.len() && s[i] == c {
            assert(s.drop_first()[i - 1] == s[i]);
        }
    }
}

/// First index of `c` within `s[lo..hi]`, relative to `lo`.
pub fn find_char(s: &Vec<char>, lo: usize, hi: usize, c: char) -> (r: Option<usize>)
    requires
        lo <= hi <= s@.len(),
    ensures
        match first_index(s@.subrange(lo as int, hi as int), c) {
            Some(i) => r == Some((lo + i) as usize),
            None => r is None,
        },
{
    let ghost sub = s@.subrange(lo as int, hi as int);
    let mut k = lo;
    while k < hi
        invariant
            lo <= k <= hi,
            hi <= s@.len(),
            sub == s@.subrange(lo as int, hi as int),
            forall|m: int| 0 <= m < k - lo ==> #[trigger] sub[m] != c,
        decreases hi - k,
    {
        if s[k] == c {
            proof {
                assert(sub[k - lo] == c);
                lemma_first_index(sub, c, k - lo);
            }
            return Some(k);
        }
        k = k + 1;
    }
    proof {
        lemma_first_index(sub, c, (hi - lo) as int);
    }
    None
}

/// The pieces of `s` separated by `c`, as `str::split` yields them (empty
/// pieces included).
pub open spec fn split_on(s: Seq<char>, c: char) -> Seq<Seq<char>>
    decreases s.len(),
{
    match first_index(s, c) {
        None => seq![s],
        Some(i) => if 0 <= i < s.len() {
            seq![s.take(i)] + split_on(s.skip(i + 1), c)
        } else {
            seq![s]
        },
    }
}

/// The value of a non-empty run of ASCII digits.
pub open spec fn digits_value(s: Seq<char>) -> nat
    decreases s.len(),
{
    if s.len() == 0 {
        0
    } else {
        digits_value(s.drop_last()) * 10 + ((s.last() as int) - ('0' as int)) as nat
    }
}

pub open spec fn all_digits(s: Seq<char>) -> bool {
    forall|i: int| 0 <= i < s.len() ==> '0' <= #[trigger] s[i] && s[i] <= '9'
}

/// `str::parse::<u32>`: an optional `+`, then one or more ASCII digits whose
/// value fits in 32 bits.
pub open spec fn spec_parse_u32(s: Seq<char>) -> Option<u32> {
    let body = if s.len() > 0 && s[0] == '+' { s.drop_first() } else { s };
    if body.len() > 0 && all_digits(body) && digits_value(body) <= u32::MAX {
        Some(digits_value(body) as u32)
    } else {
        None
    }
}

/// Saturation point of the accumulator: one past `u32::MAX`.
pub const PARSE_CAP: u64 = 0x1_0000_0000;

/// Parse `s[lo..hi]` as `str::parse::<u32>` would.
pub fn parse_u32(s: &Vec<char>, lo: usize, hi: usize) -> (r: Option<u32>)
    requires
        lo <= hi <= s@.len(),
    ensures
        r == spec_parse_u32(s@.subrange(lo as int, hi as int)),
{
    let ghost sub = s@.subrange(lo as int, hi as int);
    let mut start = lo;
    if start < hi && s[start] == '+' {
        start = start + 1;
    }
    let ghost body = s@.subrange(start as int, hi as int);
    proof {
        if lo < hi && s@[lo as int] == '+' {
            assert(body =~= sub.drop_first());
        } else {
            assert(body =~= sub);
        }
    }
    if start == hi {
        return None;
    }
    let mut val: u64 = 0;
    let mut k = start;
    while k < hi
        invariant
            start <= k <= hi,
            hi <= s@.len(),
            body == s@.subrange(start as int, hi as int),
            sub == s@.subrange(lo as int, hi as int),
            body == (if sub.len() > 0 && sub[0] == '+' { sub.drop_first() } else { sub }),
            all_digits(body.take(k - start)),
            val == if digits_value(body.take(k - start)) < PARSE_CAP { digits_value(body.take(k - start)) } else { PARSE_CAP as nat },
        decreases hi - k,
    {
        let c = s[k];
        if c < '0' || c > '9' {
            proof {
                assert(body[k - start] == c);
            }
            return None;
        }
        let d: u64 = (c as u32 - '0' as u32) as u64;
        let ghost prefix = body.take(k - start);
        let ghost next = body.take(k - start + 1);
        proof {
            assert(next.drop_last() =~= prefix);
            assert(next.last() == c);
            assert(digits_value(next) == digits_value(prefix) * 10 + d);
            assert forall|i: int| 0 <= i < next.len() implies '0' <= #[trigger] next[i] && next[i] <= '9' by {
                if i < prefix.len() {
                    assert(next[i] == prefix[i]);
                }
            }
        }
        let t: u64 = val * 10 + d;
        val = if t < PARSE_CAP { t } else { PARSE_CAP };
        proof {
            let dv = digits_value(prefix);
            if dv < PARSE_CAP {
                assert(val == if dv * 10 + d < PARSE_CAP { dv * 10 + d } else { PARSE_CAP as int });
            } else {
                assert(dv * 10 + d >= PARSE_CAP) by (nonlinear_arith)
                    requires dv >= PARSE_CAP;
            }
        }
        k = k + 1;
    }
    proof {
        assert(body.take(hi - start) =~= body);
    }
    if val >= PARSE_CAP {
        None
    } else {
        Some(val as u32)
    }
}

pub proof fn lemma_split_step(s: Seq<char>, c: char, i: int)
    requires
        first_index(s, c) == Some(i),
    ensures
        0 <= i < s.len(),
        s[i] == c,
        split_on(s, c) == seq![s.take(i)] + split_on(s.skip(i + 1), c),
    decreases s.len(),
{
    if s[0] == c {
    } else {
        let j = first_index(s.drop_first(), c)->0;
        lemma_split_step(s.drop_first(), c, j);
    }
}

pub proof fn lemma_first_index_bound(s: Seq<char>, c: char)
    ensures
        first_index(s, c) matches Some(i) ==> 0 <= i < s.len() && s[i] == c,
    decreases s.len(),
{
    if s.len() > 0 && s[0] != c {
        lemma_first_index_bound(s.drop_first(), c);
    }
}

/// One step of a comma split: the first piece, and what follows it.
pub proof fn lemma_split_head(rest: Seq<char>, c: char, at: Option<int>, piece_end: int)
    requires
        at == first_index(rest, c),
        piece_end == (match at {
            Some(j) => j,
            None => rest.len() as int,
        }),
    ensures
        0 <= piece_end <= rest.len(),
        split_on(rest, c).len() > 0,
        split_on(rest, c)[0] == rest.take(piece_end),
        at is Some ==> split_on(rest, c).drop_first() == split_on(rest.skip(piece_end + 1), c),
        at is None ==> split_on(rest, c).drop_first() == Seq::<Seq<char>>::empty(),
{
    lemma_first_index_bound(rest, c);
    match at {
        Some(j) => {
            lemma_split_step(rest, c, j);
            assert(split_on(rest, c).drop_first() =~= split_on(rest.skip(j + 1), c));
        },
        None => {
            assert(rest.take(rest.len() as int) =~= rest);
            assert(split_on(rest, c).drop_first() =~= Seq::<Seq<char>>::empty());
        },
    }
}

/// The spans of the pieces of `s` separated by `c` (empty pieces included),
/// in order.
pub fn split_spans(s: &Vec<char>, c: char) -> (r: Vec<(usize, usize)>)
    ensures
        r@.len() == split_on(s@, c).len(),
        forall|t: int| #![trigger r@[t]] 0 <= t < r@.len() ==> r@[t].0 <= r@[t].1 <= s@.len() && s@.subrange(
            r@[t].0 as int,
            r@[t].1 as int,
        ) == split_on(s@, c)[t],
{
    let n = s.len();
    let mut out: Vec<(usize, usize)> = Vec::new();
    let mut start: usize = 0;
    proof {
        assert(s@.subrange(0, n as int) =~= s@);
        assert(Seq::new(0nat, |t: int| s@.subrange(out@[t].0 as int, out@[t].1 as int)) + split_on(s@, c) =~= split_on(s@, c));
    }
    loop
        invariant
            start <= n,
            n == s@.len(),
            split_on(s@, c) == Seq::new(out@.len(), |t: int| s@.subrange(out@[t].0 as int, out@[t].1 as int)) + split_on(
                s@.subrange(start as int, n as int),
                c,
            ),
            forall|t: int| 0 <= t < out@.len() ==> #[trigger] out@[t].0 <= out@[t].1 <= n,
        decreases n - start,
    {
        let ghost rest = s@.subrange(start as int, n as int);
        let ghost prev = Seq::new(out@.len(), |t: int| s@.subrange(out@[t].0 as int, out@[t].1 as int));
        let found = find_char(s, start, n, c);
        let end = match found {
            Some(j) => j,
            None => n,
        };
        let ghost at: Option<int> = match found {
            Some(j) => Some(j - start),
            None => None,
        };
        proof {
            lemma_first_index_bound(rest, c);
            lemma_split_head(rest, c, at, end - start);
            assert(rest.take(end - start) =~= s@.subrange(start as int, end as int));
        }
        out.push((start, end));
        let ghost now = Seq::new(out@.len(), |t: int| s@.subrange(out@[t].0 as int, out@[t].1 as int));
        proof {
            assert(now =~= prev.push(s@.subrange(start as int, end as int)));
            let ps = split_on(rest, c);
            assert(ps =~= seq![ps[0]] + ps.drop_first());
        }
        match found {
            Some(j) => {
                proof {
                    assert(rest.skip(j - start + 1) =~= s@.subrange(j + 1, n as int));
                    assert(split_on(s@, c) =~= now + split_on(s@.subrange(j + 1, n as int), c));
                }
                start = j + 1;
            },
            None => {
                proof {
                    assert(split_on(s@, c) =~= now);
                    assert forall|t: int| #![trigger out@[t]] 0 <= t < out@.len() implies out@[t].0 <= out@[t].1 <= s@.len()
                        && s@.subrange(out@[t].0 as int, out@[t].1 as int) == split_on(s@, c)[t] by {
                        assert(now[t] == s@.subrange(out@[t].0 as int, out@[t].1 as int));
                    }
                }
                return out;
            },
        }
    }
}

} // verus!
