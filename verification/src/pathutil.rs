//! Path handling. Comparison keys are NFC-normalized, forward-slash relative
//! strings so that NFC/NFD variants of "the same" name collapse to one logical
//! entry. Actual I/O joins the key onto a root and, on Windows, opts into
//! extended-length `\\?\` paths only when a path risks exceeding `MAX_PATH`.
use crate::error::SyncError;
use crate::fmt::{push_str, string_from_chars};
use crate::keys::chars_of;
use crate::text::{first_index, lemma_first_index, lemma_first_index_bound, lemma_split_step, split_on, split_spans};
use unicode_normalization::UnicodeNormalization;
use vstd::prelude::*;

verus! {

/// The lowercase mapping of a string, as `str::to_lowercase` computes it.
pub uninterp spec fn lowercase(s: Seq<char>) -> Seq<char>;

/// Calls `str::to_lowercase`. Claimed: the result is the lowercase mapping
/// named by `lowercase` of exactly this string.
#[verifier::external_body]
pub(crate) fn to_lowercase_string(s: &str) -> (r: String)
    ensures
        r@ == lowercase(s@),
{
    s.to_lowercase()
}

/// Case-folded key for collision detection against case-insensitive
/// destinations.
pub fn case_fold(key: &str) -> (r: String)
    ensures
        r@ == lowercase(key@),
{
    to_lowercase_string(key)
}

/// The Unicode canonical composition (NFC) of a string, as the
/// `unicode-normalization` crate computes it.
pub uninterp spec fn nfc(s: Seq<char>) -> Seq<char>;

/// Calls `UnicodeNormalization::nfc` and collects the characters. Claimed:
/// the result is the NFC form named by `nfc` of exactly this string.
#[verifier::external_body]
pub(crate) fn nfc_string(s: &str) -> (r: String)
    ensures
        r@ == nfc(s@),
{
    s.nfc().collect::<String>()
}

/// The pieces kept from a split: non-empty ones, and with `dots` also not `.`
/// or `..`.
pub open spec fn keeps(p: Seq<char>, dots: bool) -> bool {
    p.len() > 0 && (!dots || (p != seq!['.'] && p != seq!['.', '.']))
}

pub open spec fn keep_pieces(ps: Seq<Seq<char>>, dots: bool) -> Seq<Seq<char>>
    decreases ps.len(),
{
    if ps.len() == 0 {
        Seq::empty()
    } else if keeps(ps.last(), dots) {
        keep_pieces(ps.drop_last(), dots).push(ps.last())
    } else {
        keep_pieces(ps.drop_last(), dots)
    }
}

/// The pieces joined with `sep` between them.
pub open spec fn join_with(ps: Seq<Seq<char>>, sep: char) -> Seq<char>
    decreases ps.len(),
{
    if ps.len() == 0 {
        Seq::empty()
    } else if ps.len() == 1 {
        ps[0]
    } else {
        join_with(ps.drop_last(), sep) + seq![sep] + ps.last()
    }
}

/// The normal components of a relative path (`/`-separated; empty, `.` and
/// `..` components dropped).
pub open spec fn normal_components(rel: Seq<char>) -> Seq<Seq<char>> {
    keep_pieces(split_on(rel, '/'), true)
}

/// The comparison key of a relative path: its normal components, each in NFC,
/// joined with `/`.
pub open spec fn spec_nfc_key(rel: Seq<char>) -> Seq<char> {
    join_with(normal_components(rel).map_values(|p: Seq<char>| nfc(p)), '/')
}

proof fn lemma_join_push(ps: Seq<Seq<char>>, x: Seq<char>, sep: char)
    ensures
        join_with(ps.push(x), sep) == if ps.len() == 0 {
            x
        } else {
            join_with(ps, sep) + seq![sep] + x
        },
{
    assert(ps.push(x).drop_last() =~= ps);
}

/// The text of `s[lo..hi]` as a `String`.
fn piece_string(s: &Vec<char>, lo: usize, hi: usize) -> (r: String)
    requires
        lo <= hi <= s@.len(),
    ensures
        r@ == s@.subrange(lo as int, hi as int),
{
    let mut v: Vec<char> = Vec::new();
    let mut k = lo;
    while k < hi
        invariant
            lo <= k <= hi,
            hi <= s@.len(),
            v@ == s@.subrange(lo as int, k as int),
        decreases hi - k,
    {
        v.push(s[k]);
        k = k + 1;
        proof {
            assert(v@ =~= s@.subrange(lo as int, k as int));
        }
    }
    string_from_chars(&v)
}

/// Append the characters of `t`.
fn push_all(out: &mut Vec<char>, t: &Vec<char>)
    ensures
        final(out)@ == old(out)@ + t@,
{
    let ghost before = out@;
    let mut k: usize = 0;
    while k < t.len()
        invariant
            k <= t@.len(),
            out@ == before + t@.take(k as int),
        decreases t@.len() - k,
    {
        out.push(t[k]);
        k = k + 1;
        proof {
            assert(out@ =~= before + t@.take(k as int));
        }
    }
    proof {
        assert(t@.take(t@.len() as int) =~= t@);
    }
}

/// The canonical comparison key for a relative path: NFC-normalized,
/// forward-slash separated, no leading slash.
pub fn nfc_key(rel: &str) -> (r: String)
    ensures
        r@ == spec_nfc_key(rel@),
{
    let s = chars_of(rel);
    let spans = split_spans(&s, '/');
    let ghost pieces = split_on(s@, '/');
    let mut out: Vec<char> = Vec::new();
    let mut count: usize = 0;
    let mut i: usize = 0;
    proof {
        assert(pieces.take(0) =~= Seq::<Seq<char>>::empty());
    }
    while i < spans.len()
        invariant
            i <= spans@.len(),
            spans@.len() == pieces.len(),
            pieces == split_on(s@, '/'),
            s@ == rel@,
            forall|t: int| #![trigger spans@[t]] 0 <= t < spans@.len() ==> spans@[t].0 <= spans@[t].1 <= s@.len() && s@.subrange(
                spans@[t].0 as int,
                spans@[t].1 as int,
            ) == pieces[t],
            count == keep_pieces(pieces.take(i as int), true).len(),
            count <= i,
            out@ == join_with(keep_pieces(pieces.take(i as int), true).map_values(|p: Seq<char>| nfc(p)), '/'),
        decreases spans@.len() - i,
    {
        let (lo, hi) = spans[i];
        let ghost piece = pieces[i as int];
        let ghost prev = keep_pieces(pieces.take(i as int), true);
        proof {
            assert(pieces.take(i + 1).drop_last() =~= pieces.take(i as int));
            assert(pieces.take(i + 1).last() == piece);
        }
        let len = hi - lo;
        let keep = len > 0 && !(len == 1 && s[lo] == '.') && !(len == 2 && s[lo] == '.' && s[lo + 1] == '.');
        proof {
            if len == 1 {
                assert(piece[0] == s@[lo as int]);
            }
            if len == 2 {
                assert(piece[0] == s@[lo as int]);
                assert(piece[1] == s@[lo + 1]);
            }
            assert(keep == keeps(piece, true)) by {
                if len == 1 && s@[lo as int] == '.' {
                    assert(piece =~= seq!['.']);
                }
                if len == 2 && s@[lo as int] == '.' && s@[lo + 1] == '.' {
                    assert(piece =~= seq!['.', '.']);
                }
            }
        }
        if keep {
            let p = piece_string(&s, lo, hi);
            let n = nfc_string(p.as_str());
            let nc = chars_of(n.as_str());
            if count > 0 {
                out.push('/');
            }
            push_all(&mut out, &nc);
            proof {
                let f = |p: Seq<char>| nfc(p);
                assert(prev.push(piece).map_values(f) =~= prev.map_values(f).push(nfc(piece)));
                lemma_join_push(prev.map_values(f), nfc(piece), '/');
            }
            count = count + 1;
        }
        i = i + 1;
    }
    proof {
        assert(pieces.take(pieces.len() as int) =~= pieces);
    }
    string_from_chars(&out)
}

/// A path separator: `/`, and on Windows also `\`.
pub open spec fn is_sep(c: char, windows: bool) -> bool {
    c == '/' || (windows && c == '\\')
}

/// The separator a join inserts: `\` on Windows, `/` elsewhere.
pub open spec fn main_sep(windows: bool) -> char {
    if windows {
        '\\'
    } else {
        '/'
    }
}

pub open spec fn is_ascii_letter(c: char) -> bool {
    ('a' <= c && c <= 'z') || ('A' <= c && c <= 'Z')
}

/// A bare drive such as `C:`, which Windows extends with no separator.
pub open spec fn bare_drive(p: Seq<char>) -> bool {
    p.len() == 2 && p[1] == ':' && is_ascii_letter(p[0])
}

/// Whether appending to the path `p` first inserts a separator: unless `p`
/// is empty, already ends in a separator, or (on Windows) is a bare drive.
pub open spec fn needs_sep(p: Seq<char>, windows: bool) -> bool {
    p.len() > 0 && !is_sep(p.last(), windows) && !(windows && bare_drive(p))
}

/// `root` with each segment appended in turn, the platform separator
/// inserted wherever `needs_sep` says so.
pub open spec fn push_segments(root: Seq<char>, segs: Seq<Seq<char>>, windows: bool) -> Seq<char>
    decreases segs.len(),
{
    if segs.len() == 0 {
        root
    } else {
        let p = push_segments(root, segs.drop_last(), windows);
        if needs_sep(p, windows) {
            p + seq![main_sep(windows)] + segs.last()
        } else {
            p + segs.last()
        }
    }
}

// ---------------------------------------------------------------------------
// Segments of a joined path
// ---------------------------------------------------------------------------

/// `c` does not occur in `s`.
pub open spec fn free_of(s: Seq<char>, c: char) -> bool {
    forall|k: int| 0 <= k < s.len() ==> s[k] != c
}

/// What `push_segments` puts between the root and the first segment.
pub open spec fn glue(root: Seq<char>, windows: bool) -> Seq<char> {
    if needs_sep(root, windows) {
        seq![main_sep(windows)]
    } else {
        Seq::empty()
    }
}

proof fn lemma_first_index_free(s: Seq<char>, c: char)
    ensures
        match first_index(s, c) {
            None => free_of(s, c),
            Some(i) => 0 <= i <= s.len() && free_of(s.take(i), c),
        },
    decreases s.len(),
{
    if s.len() > 0 && s[0] != c {
        let t = s.drop_first();
        lemma_first_index_free(t, c);
        match first_index(t, c) {
            None => {
                assert forall|k: int| 0 <= k < s.len() implies s[k] != c by {
                    if k > 0 {
                        assert(s[k] == t[k - 1]);
                    }
                }
            },
            Some(i) => {
                assert forall|k: int| 0 <= k < i + 1 implies #[trigger] s.take(i + 1)[k] != c by {
                    if k > 0 {
                        assert(s.take(i + 1)[k] == t.take(i)[k - 1]);
                    }
                }
            },
        }
    }
}

proof fn lemma_join_front(a: Seq<char>, rest: Seq<Seq<char>>, c: char)
    requires
        rest.len() > 0,
    ensures
        join_with(seq![a] + rest, c) == a + seq![c] + join_with(rest, c),
    decreases rest.len(),
{
    let whole = seq![a] + rest;
    if rest.len() == 1 {
        assert(whole.drop_last() =~= seq![a]);
        assert(whole.last() == rest[0]);
        assert(join_with(seq![a], c) == a);
        assert(join_with(rest, c) == rest[0]);
        assert(join_with(whole, c) == join_with(whole.drop_last(), c) + seq![c] + whole.last());
    } else {
        let r2 = rest.drop_last();
        lemma_join_front(a, r2, c);
        assert(whole.drop_last() =~= seq![a] + r2);
        assert(whole.last() == rest.last());
        assert(join_with(whole, c) =~= a + seq![c] + join_with(rest, c));
    }
}

/// The pieces of a split hold no separator, there is at least one, and
/// joining them back gives the text.
proof fn lemma_split_pieces(s: Seq<char>, c: char)
    ensures
        split_on(s, c).len() > 0,
        forall|i: int| 0 <= i < split_on(s, c).len() ==> free_of(#[trigger] split_on(s, c)[i], c),
        join_with(split_on(s, c), c) == s,
    decreases s.len(),
{
    lemma_first_index_free(s, c);
    lemma_first_index_bound(s, c);
    match first_index(s, c) {
        None => {},
        Some(i) => {
            lemma_split_step(s, c, i);
            let rest = s.skip(i + 1);
            lemma_split_pieces(rest, c);
            let ps = split_on(s, c);
            assert(ps == seq![s.take(i)] + split_on(rest, c));
            assert forall|k: int| 0 <= k < ps.len() implies free_of(#[trigger] ps[k], c) by {
                if k > 0 {
                    assert(ps[k] == split_on(rest, c)[k - 1]);
                }
            }
            lemma_join_front(s.take(i), split_on(rest, c), c);
            assert(s.take(i) + seq![c] + rest =~= s);
        },
    }
}

/// Splitting pieces that hold no separator, once joined, gives them back.
proof fn lemma_split_join(ps: Seq<Seq<char>>, c: char)
    requires
        ps.len() > 0,
        forall|i: int| 0 <= i < ps.len() ==> free_of(#[trigger] ps[i], c),
    ensures
        split_on(join_with(ps, c), c) == ps,
    decreases ps.len(),
{
    if ps.len() == 1 {
        assert(free_of(ps[0], c));
        lemma_first_index(ps[0], c, ps[0].len() as int);
        assert(split_on(ps[0], c) =~= ps);
    } else {
        let a = ps[0];
        let rest = ps.drop_first();
        assert(ps =~= seq![a] + rest);
        lemma_join_front(a, rest, c);
        let j = join_with(ps, c);
        assert(free_of(a, c));
        assert(j == a + seq![c] + join_with(rest, c));
        assert forall|k: int| 0 <= k < a.len() implies #[trigger] j[k] != c by {
            assert(j[k] == a[k]);
        }
        lemma_first_index(j, c, a.len() as int);
        lemma_split_step(j, c, a.len() as int);
        assert(j.take(a.len() as int) =~= a);
        assert(j.skip(a.len() as int + 1) =~= join_with(rest, c));
        assert forall|i: int| 0 <= i < rest.len() implies free_of(#[trigger] rest[i], c) by {
            assert(rest[i] == ps[i + 1]);
        }
        lemma_split_join(rest, c);
    }
}

proof fn lemma_keep_front(x: Seq<char>, ps: Seq<Seq<char>>, dots: bool)
    ensures
        keep_pieces(seq![x] + ps, dots) == (if keeps(x, dots) {
            seq![x]
        } else {
            Seq::empty()
        }) + keep_pieces(ps, dots),
    decreases ps.len(),
{
    let whole = seq![x] + ps;
    if ps.len() == 0 {
        let e = Seq::<Seq<char>>::empty();
        assert(whole.drop_last() =~= e);
        assert(whole.last() == x);
        assert(keep_pieces(e, dots) == e);
        assert(ps =~= e);
        if keeps(x, dots) {
            assert(keep_pieces(whole, dots) == keep_pieces(e, dots).push(x));
            assert(keep_pieces(whole, dots) =~= seq![x] + keep_pieces(ps, dots));
        } else {
            assert(keep_pieces(whole, dots) == keep_pieces(e, dots));
            assert(keep_pieces(whole, dots) =~= Seq::<Seq<char>>::empty() + keep_pieces(ps, dots));
        }
    } else {
        let pd = ps.drop_last();
        lemma_keep_front(x, pd, dots);
        let front: Seq<Seq<char>> = if keeps(x, dots) { seq![x] } else { Seq::empty() };
        assert(whole.drop_last() =~= seq![x] + pd);
        assert(whole.last() == ps.last());
        assert(keep_pieces(seq![x] + pd, dots) == front + keep_pieces(pd, dots));
        if keeps(ps.last(), dots) {
            assert(keep_pieces(ps, dots) == keep_pieces(pd, dots).push(ps.last()));
            assert(keep_pieces(whole, dots) == keep_pieces(seq![x] + pd, dots).push(ps.last()));
            assert(keep_pieces(whole, dots) =~= front + keep_pieces(ps, dots));
        } else {
            assert(keep_pieces(ps, dots) == keep_pieces(pd, dots));
            assert(keep_pieces(whole, dots) == keep_pieces(seq![x] + pd, dots));
        }
    }
}

/// The kept pieces of a split are non-empty and hold no separator.
proof fn lemma_kept_pieces(ps: Seq<Seq<char>>, dots: bool, c: char)
    requires
        forall|i: int| 0 <= i < ps.len() ==> free_of(#[trigger] ps[i], c),
    ensures
        forall|i: int| 0 <= i < keep_pieces(ps, dots).len() ==> free_of(#[trigger] keep_pieces(ps, dots)[i], c) && keeps(
            keep_pieces(ps, dots)[i],
            dots,
        ),
    decreases ps.len(),
{
    if ps.len() > 0 {
        let pd = ps.drop_last();
        assert forall|i: int| 0 <= i < pd.len() implies free_of(#[trigger] pd[i], c) by {
            assert(pd[i] == ps[i]);
        }
        lemma_kept_pieces(pd, dots, c);
        assert(free_of(ps[ps.len() - 1], c));
        let kp = keep_pieces(pd, dots);
        if keeps(ps.last(), dots) {
            assert(keep_pieces(ps, dots) == kp.push(ps.last()));
            assert forall|i: int| 0 <= i < keep_pieces(ps, dots).len() implies free_of(
                #[trigger] keep_pieces(ps, dots)[i],
                c,
            ) && keeps(keep_pieces(ps, dots)[i], dots) by {
                if i < kp.len() {
                    assert(keep_pieces(ps, dots)[i] == kp[i]);
                }
            }
        } else {
            assert(keep_pieces(ps, dots) == kp);
        }
    }
}

/// Pieces that are all kept are kept as they are.
proof fn lemma_keep_all(ps: Seq<Seq<char>>, dots: bool)
    requires
        forall|i: int| 0 <= i < ps.len() ==> keeps(#[trigger] ps[i], dots),
    ensures
        keep_pieces(ps, dots) == ps,
    decreases ps.len(),
{
    if ps.len() > 0 {
        let pd = ps.drop_last();
        assert forall|i: int| 0 <= i < pd.len() implies keeps(#[trigger] pd[i], dots) by {
            assert(pd[i] == ps[i]);
        }
        lemma_keep_all(pd, dots);
        assert(keeps(ps[ps.len() - 1], dots));
        assert(pd.push(ps.last()) =~= ps);
    }
}

/// Appending non-empty segments without `/` (outside Windows) puts the root,
/// the glue, and the segments joined with `/`.
proof fn lemma_push_segments(root: Seq<char>, segs: Seq<Seq<char>>)
    requires
        segs.len() > 0,
        forall|i: int| 0 <= i < segs.len() ==> free_of(#[trigger] segs[i], '/') && segs[i].len() > 0,
    ensures
        push_segments(root, segs, false) == root + glue(root, false) + join_with(segs, '/'),
    decreases segs.len(),
{
    let pd = segs.drop_last();
    if segs.len() == 1 {
        assert(push_segments(root, pd, false) == root);
        assert(push_segments(root, segs, false) =~= root + glue(root, false) + join_with(segs, '/'));
    } else {
        assert forall|i: int| 0 <= i < pd.len() implies free_of(#[trigger] pd[i], '/') && pd[i].len() > 0 by {
            assert(pd[i] == segs[i]);
        }
        lemma_push_segments(root, pd);
        let p = push_segments(root, pd, false);
        let lastp = pd[pd.len() - 1];
        assert(free_of(lastp, '/') && lastp.len() > 0);
        assert(join_with(pd, '/') == join_with(pd.drop_last(), '/') + seq!['/'] + pd.last() || pd.len() == 1);
        assert(p.len() > 0);
        assert(p.last() == lastp.last()) by {
            if pd.len() == 1 {
                assert(join_with(pd, '/') == pd[0]);
            }
        }
        assert(p.last() != '/');
        assert(push_segments(root, segs, false) =~= root + glue(root, false) + join_with(segs, '/'));
    }
}

/// Appending segments only ever extends the root.
proof fn lemma_push_prefix(root: Seq<char>, segs: Seq<Seq<char>>, windows: bool)
    ensures
        push_segments(root, segs, windows).len() >= root.len(),
        push_segments(root, segs, windows).take(root.len() as int) == root,
    decreases segs.len(),
{
    if segs.len() > 0 {
        lemma_push_prefix(root, segs.drop_last(), windows);
        let p = push_segments(root, segs.drop_last(), windows);
        let r = push_segments(root, segs, windows);
        assert(r.take(p.len() as int) =~= p);
        assert(r.take(root.len() as int) =~= p.take(root.len() as int));
    }
}

/// The segments of `os_path_for(root, key, false)` after the root are
/// exactly the key's non-empty segments: the result is the root, then
/// (unless the root is empty or ends with `/`) a `/`, then those segments
/// joined with `/`.
pub proof fn law_os_path_segments(root: Seq<char>, key: Seq<char>)
    ensures
        ({
            let segs = keep_pieces(split_on(key, '/'), false);
            let r = push_segments(root, segs, false);
            &&& r.len() >= root.len()
            &&& r.take(root.len() as int) == root
            &&& keep_pieces(split_on(r.skip(root.len() as int), '/'), false) == segs
            &&& segs.len() > 0 ==> r == root + glue(root, false) + join_with(segs, '/')
        }),
{
    let segs = keep_pieces(split_on(key, '/'), false);
    lemma_split_pieces(key, '/');
    lemma_kept_pieces(split_on(key, '/'), false, '/');
    let r = push_segments(root, segs, false);
    if segs.len() == 0 {
        assert(r == root);
        assert(r.skip(root.len() as int) =~= Seq::<char>::empty());
        lemma_first_index(Seq::<char>::empty(), '/', 0);
        assert(split_on(Seq::<char>::empty(), '/') == seq![Seq::<char>::empty()]);
        assert(keep_pieces(seq![Seq::<char>::empty()], false) =~= Seq::<Seq<char>>::empty()) by {
            let one = seq![Seq::<char>::empty()];
            assert(one.drop_last() =~= Seq::<Seq<char>>::empty());
            assert(one.last() == Seq::<char>::empty());
            assert(!keeps(one.last(), false));
            assert(keep_pieces(Seq::<Seq<char>>::empty(), false) == Seq::<Seq<char>>::empty());
            assert(keep_pieces(one, false) == keep_pieces(one.drop_last(), false));
        }
        assert(r.take(root.len() as int) =~= root);
    } else {
        lemma_push_segments(root, segs);
        let j = join_with(segs, '/');
        lemma_split_join(segs, '/');
        assert forall|i: int| 0 <= i < segs.len() implies keeps(#[trigger] segs[i], false) by {}
        lemma_keep_all(segs, false);
        assert(r.take(root.len() as int) =~= root);
        if glue(root, false).len() == 0 {
            assert(r.skip(root.len() as int) =~= j);
        } else {
            let t = seq!['/'] + j;
            assert(r.skip(root.len() as int) =~= t);
            lemma_first_index(t, '/', 0);
            lemma_split_step(t, '/', 0);
            assert(t.take(0) =~= Seq::<char>::empty());
            assert(t.skip(1) =~= j);
            lemma_keep_front(Seq::<char>::empty(), segs, false);
        }
    }
}

/// A key made of plain names already in NFC (no empty, `.` or `..`
/// segment) is laid out under a root that does not end in `/` as
/// `root/key` (outside Windows), and the comparison key of what follows the
/// root and its `/` is the key itself.
pub proof fn law_os_path_round_trip(root: Seq<char>, key: Seq<char>)
    requires
        root.len() > 0,
        root.last() != '/',
        forall|i: int|
            0 <= i < split_on(key, '/').len() ==> keeps(#[trigger] split_on(key, '/')[i], true) && nfc(
                split_on(key, '/')[i],
            ) == split_on(key, '/')[i],
    ensures
        push_segments(root, keep_pieces(split_on(key, '/'), false), false) == root + seq!['/'] + key,
        spec_nfc_key(push_segments(root, keep_pieces(split_on(key, '/'), false), false).skip(root.len() as int + 1))
            == key,
{
    let ps = split_on(key, '/');
    lemma_split_pieces(key, '/');
    assert forall|i: int| 0 <= i < ps.len() implies keeps(#[trigger] ps[i], false) by {
        assert(keeps(ps[i], true));
    }
    lemma_keep_all(ps, false);
    lemma_keep_all(ps, true);
    assert forall|i: int| 0 <= i < ps.len() implies free_of(#[trigger] ps[i], '/') && ps[i].len() > 0 by {
        assert(keeps(ps[i], true));
    }
    lemma_push_segments(root, ps);
    assert(ps.map_values(|p: Seq<char>| nfc(p)) =~= ps);
    let r = push_segments(root, keep_pieces(split_on(key, '/'), false), false);
    assert(r.skip(root.len() as int + 1) =~= key);
}

/// The platform's main path separator, `std::path::MAIN_SEPARATOR`.
/// Claimed: it is `/` or `\` (which of the two depends on the platform the
/// code was built for, and is not stated).
#[verifier::external_body]
pub(crate) fn main_separator() -> (c: char)
    ensures
        c == main_sep(false) || c == main_sep(true),
{
    std::path::MAIN_SEPARATOR
}

/// The on-disk path for `key` under `root`, laid out by the rules of
/// `PathBuf::push` (Windows rules when `windows`): each non-empty segment of
/// the key appended in turn, a separator first where `needs_sep` says so. A
/// segment is appended as text; on Windows a segment that itself holds a
/// drive or starts with `\` (which no scanned key does) is not treated as
/// replacing the path.
pub fn os_path_for(root: &str, key: &str, windows: bool) -> (r: String)
    ensures
        r@ == push_segments(root@, keep_pieces(split_on(key@, '/'), false), windows),
        r@.len() >= root@.len(),
        r@.take(root@.len() as int) == root@,
        !windows ==> keep_pieces(split_on(r@.skip(root@.len() as int), '/'), false) == keep_pieces(
            split_on(key@, '/'),
            false,
        ),
{
    proof {
        law_os_path_segments(root@, key@);
        lemma_push_prefix(root@, keep_pieces(split_on(key@, '/'), false), windows);
    }
    let s = chars_of(key);
    let spans = split_spans(&s, '/');
    let ghost pieces = split_on(s@, '/');
    let mut out: Vec<char> = chars_of(root);
    let mut i: usize = 0;
    proof {
        assert(pieces.take(0) =~= Seq::<Seq<char>>::empty());
    }
    while i < spans.len()
        invariant
            i <= spans@.len(),
            spans@.len() == pieces.len(),
            pieces == split_on(s@, '/'),
            s@ == key@,
            forall|t: int| #![trigger spans@[t]] 0 <= t < spans@.len() ==> spans@[t].0 <= spans@[t].1 <= s@.len() && s@.subrange(
                spans@[t].0 as int,
                spans@[t].1 as int,
            ) == pieces[t],
            out@ == push_segments(root@, keep_pieces(pieces.take(i as int), false), windows),
        decreases spans@.len() - i,
    {
        let (lo, hi) = spans[i];
        let ghost piece = pieces[i as int];
        let ghost prev = keep_pieces(pieces.take(i as int), false);
        proof {
            assert(pieces.take(i + 1).drop_last() =~= pieces.take(i as int));
            assert(pieces.take(i + 1).last() == piece);
        }
        if hi > lo {
            proof {
                assert(prev.push(piece).drop_last() =~= prev);
            }
            let n = out.len();
            let sep = if windows { '\\' } else { '/' };
            let ends_in_sep = n > 0 && (out[n - 1] == '/' || (windows && out[n - 1] == '\\'));
            let drive = n == 2 && out[1] == ':' && (('a' <= out[0] && out[0] <= 'z') || ('A' <= out[0] && out[0]
                <= 'Z'));
            if n > 0 && !ends_in_sep && !(windows && drive) {
                out.push(sep);
            }
            let mut k = lo;
            let ghost before = out@;
            while k < hi
                invariant
                    lo <= k <= hi,
                    hi <= s@.len(),
                    out@ == before + s@.subrange(lo as int, k as int),
                decreases hi - k,
            {
                out.push(s[k]);
                k = k + 1;
                proof {
                    assert(out@ =~= before + s@.subrange(lo as int, k as int));
                }
            }
        }
        i = i + 1;
    }
    proof {
        assert(pieces.take(pieces.len() as int) =~= pieces);
    }
    string_from_chars(&out)
}

/// The on-disk path for `key` under `root` on the platform this runs on:
/// `os_path_for` with the Windows rules exactly when the platform's
/// separator is `\`.
pub fn os_path(root: &str, key: &str) -> (r: String)
    ensures
        r@ == push_segments(root@, keep_pieces(split_on(key@, '/'), false), false) || r@ == push_segments(
            root@,
            keep_pieces(split_on(key@, '/'), false),
            true,
        ),
        r@.len() >= root@.len(),
        r@.take(root@.len() as int) == root@,
{
    let windows = main_separator() == '\\';
    os_path_for(root, key, windows)
}

pub open spec fn is_illegal_char(c: char) -> bool {
    c == '<' || c == '>' || c == ':' || c == '"' || c == '|' || c == '?' || c == '*'
}

/// ASCII letters upper-cased, everything else unchanged.
pub open spec fn ascii_upper(c: char) -> char {
    if c == 'a' { 'A' } else if c == 'b' { 'B' } else if c == 'c' { 'C' } else if c == 'd' { 'D' }
    else if c == 'e' { 'E' } else if c == 'f' { 'F' } else if c == 'g' { 'G' } else if c == 'h' { 'H' }
    else if c == 'i' { 'I' } else if c == 'j' { 'J' } else if c == 'k' { 'K' } else if c == 'l' { 'L' }
    else if c == 'm' { 'M' } else if c == 'n' { 'N' } else if c == 'o' { 'O' } else if c == 'p' { 'P' }
    else if c == 'q' { 'Q' } else if c == 'r' { 'R' } else if c == 's' { 'S' } else if c == 't' { 'T' }
    else if c == 'u' { 'U' } else if c == 'v' { 'V' } else if c == 'w' { 'W' } else if c == 'x' { 'X' }
    else if c == 'y' { 'Y' } else if c == 'z' { 'Z' } else { c }
}

fn upper_char(c: char) -> (r: char)
    ensures
        r == ascii_upper(c),
{
    match c {
        'a' => 'A', 'b' => 'B', 'c' => 'C', 'd' => 'D', 'e' => 'E', 'f' => 'F', 'g' => 'G',
        'h' => 'H', 'i' => 'I', 'j' => 'J', 'k' => 'K', 'l' => 'L', 'm' => 'M', 'n' => 'N',
        'o' => 'O', 'p' => 'P', 'q' => 'Q', 'r' => 'R', 's' => 'S', 't' => 'T', 'u' => 'U',
        'v' => 'V', 'w' => 'W', 'x' => 'X', 'y' => 'Y', 'z' => 'Z',
        _ => c,
    }
}

/// Windows' reserved device names.
pub open spec fn reserved_names() -> Seq<Seq<char>> {
    seq![
        "CON"@, "PRN"@, "AUX"@, "NUL"@, "COM1"@, "COM2"@, "COM3"@, "COM4"@, "COM5"@, "COM6"@, "COM7"@,
        "COM8"@, "COM9"@, "LPT1"@, "LPT2"@, "LPT3"@, "LPT4"@, "LPT5"@, "LPT6"@, "LPT7"@, "LPT8"@, "LPT9"@,
    ]
}

fn reserved_list() -> (r: Vec<&'static str>)
    ensures
        r@.len() == reserved_names().len(),
        forall|i: int| 0 <= i < r@.len() ==> (#[trigger] r@[i])@ == reserved_names()[i],
{
    vec![
        "CON", "PRN", "AUX", "NUL", "COM1", "COM2", "COM3", "COM4", "COM5", "COM6", "COM7",
        "COM8", "COM9", "LPT1", "LPT2", "LPT3", "LPT4", "LPT5", "LPT6", "LPT7", "LPT8", "LPT9",
    ]
}

/// The first illegal character of a segment, if any.
pub open spec fn first_illegal(seg: Seq<char>) -> Option<char>
    decreases seg.len(),
{
    if seg.len() == 0 {
        None
    } else if is_illegal_char(seg[0]) {
        Some(seg[0])
    } else {
        first_illegal(seg.drop_first())
    }
}

/// The part of a segment before its first `.`.
pub open spec fn stem(seg: Seq<char>) -> Seq<char> {
    match first_index(seg, '.') {
        Some(i) => seg.take(i),
        None => seg,
    }
}

/// Why Windows cannot represent a (non-empty) segment, if it cannot.
pub open spec fn segment_problem(seg: Seq<char>) -> Option<Seq<char>> {
    if seg.last() == ' ' || seg.last() == '.' {
        Some("segment '"@ + seg + "' has a trailing space or dot"@)
    } else if first_illegal(seg) is Some {
        Some("segment '"@ + seg + "' contains illegal character '"@ + seq![first_illegal(seg)->0] + "'"@)
    } else if reserved_names().contains(stem(seg).map_values(|c: char| ascii_upper(c))) {
        Some("segment '"@ + seg + "' is a reserved device name"@)
    } else {
        None
    }
}

/// The first problem among the non-empty segments, in order.
pub open spec fn first_problem(segs: Seq<Seq<char>>) -> Option<Seq<char>>
    decreases segs.len(),
{
    if segs.len() == 0 {
        None
    } else if segs[0].len() > 0 && segment_problem(segs[0]) is Some {
        segment_problem(segs[0])
    } else {
        first_problem(segs.drop_first())
    }
}

/// Why `key` cannot be materialised, if it cannot: on Windows a segment may
/// not end in a space or dot, hold `<>:"|?*`, or be a reserved device name
/// (compared on the part before the first dot, ASCII case-insensitively).
/// Elsewhere every key is representable.
pub open spec fn representable_problem(key: Seq<char>, windows: bool) -> Option<Seq<char>> {
    if windows {
        first_problem(split_on(key, '/'))
    } else {
        None
    }
}

fn chars_eq(a: &Vec<char>, b: &Vec<char>) -> (r: bool)
    ensures
        r == (a@ == b@),
{
    if a.len() != b.len() {
        return false;
    }
    let mut k: usize = 0;
    while k < a.len()
        invariant
            k <= a@.len(),
            a@.len() == b@.len(),
            forall|j: int| 0 <= j < k ==> a@[j] == b@[j],
        decreases a@.len() - k,
    {
        if a[k] != b[k] {
            return false;
        }
        k = k + 1;
    }
    proof {
        assert(a@ =~= b@);
    }
    true
}

/// The problem of segment `s[lo..hi]` (non-empty), if any.
fn segment_check(s: &Vec<char>, lo: usize, hi: usize) -> (r: Option<Vec<char>>)
    requires
        lo < hi <= s@.len(),
    ensures
        match segment_problem(s@.subrange(lo as int, hi as int)) {
            Some(p) => r matches Some(m) && m@ == p,
            None => r is None,
        },
{
    let ghost seg = s@.subrange(lo as int, hi as int);
    let last = s[hi - 1];
    proof {
        assert(seg.last() == last);
    }
    if last == ' ' || last == '.' {
        let mut m: Vec<char> = Vec::new();
        push_str(&mut m, "segment '");
        let p = piece_chars(s, lo, hi);
        push_all(&mut m, &p);
        push_str(&mut m, "' has a trailing space or dot");
        return Some(m);
    }
    // first illegal character
    let mut k = lo;
    while k < hi
        invariant
            lo <= k <= hi,
            lo < hi <= s@.len(),
            seg == s@.subrange(lo as int, hi as int),
            !(seg.last() == ' ' || seg.last() == '.'),
            first_illegal(seg) == first_illegal(s@.subrange(k as int, hi as int)),
        decreases hi - k,
    {
        let c = s[k];
        proof {
            let rest = s@.subrange(k as int, hi as int);
            assert(rest[0] == c);
            assert(rest.drop_first() =~= s@.subrange(k + 1, hi as int));
        }
        if c == '<' || c == '>' || c == ':' || c == '"' || c == '|' || c == '?' || c == '*' {
            proof {
                assert(first_illegal(s@.subrange(k as int, hi as int)) == Some(c));
            }
            let mut m: Vec<char> = Vec::new();
            push_str(&mut m, "segment '");
            let p = piece_chars(s, lo, hi);
            push_all(&mut m, &p);
            push_str(&mut m, "' contains illegal character '");
            m.push(c);
            push_str(&mut m, "'");
            return Some(m);
        }
        k = k + 1;
    }
    proof {
        assert(s@.subrange(hi as int, hi as int) =~= Seq::<char>::empty());
        assert(first_illegal(seg) is None);
    }
    // the stem, upper-cased
    let mut up: Vec<char> = Vec::new();
    let mut j = lo;
    while j < hi && s[j] != '.'
        invariant
            lo <= j <= hi,
            hi <= s@.len(),
            seg == s@.subrange(lo as int, hi as int),
            forall|t: int| lo <= t < j ==> s@[t] != '.',
            up@ == s@.subrange(lo as int, j as int).map_values(|c: char| ascii_upper(c)),
        decreases hi - j,
    {
        let u = upper_char(s[j]);
        up.push(u);
        j = j + 1;
        proof {
            assert(up@ =~= s@.subrange(lo as int, j as int).map_values(|c: char| ascii_upper(c)));
        }
    }
    proof {
        lemma_first_index_bound(seg, '.');
        crate::text::lemma_first_index(seg, '.', j - lo);
        assert(stem(seg) =~= s@.subrange(lo as int, j as int));
    }
    let names = reserved_list();
    let mut n: usize = 0;
    while n < names.len()
        invariant
            n <= names@.len(),
            lo < hi <= s@.len(),
            seg == s@.subrange(lo as int, hi as int),
            !(seg.last() == ' ' || seg.last() == '.'),
            first_illegal(seg) is None,
            up@ == stem(seg).map_values(|c: char| ascii_upper(c)),
            names@.len() == reserved_names().len(),
            forall|i: int| 0 <= i < names@.len() ==> (#[trigger] names@[i])@ == reserved_names()[i],
            forall|i: int| 0 <= i < n ==> reserved_names()[i] != up@,
        decreases names@.len() - n,
    {
        let name = chars_of(names[n]);
        if chars_eq(&up, &name) {
            let mut m: Vec<char> = Vec::new();
            push_str(&mut m, "segment '");
            let p = piece_chars(s, lo, hi);
            push_all(&mut m, &p);
            push_str(&mut m, "' is a reserved device name");
            proof {
                assert(reserved_names()[n as int] == up@);
                assert(reserved_names().contains(up@));
            }
            return Some(m);
        }
        n = n + 1;
    }
    proof {
        assert(!reserved_names().contains(up@));
    }
    None
}

/// The characters `s[lo..hi]`.
fn piece_chars(s: &Vec<char>, lo: usize, hi: usize) -> (r: Vec<char>)
    requires
        lo <= hi <= s@.len(),
    ensures
        r@ == s@.subrange(lo as int, hi as int),
{
    let mut v: Vec<char> = Vec::new();
    let mut k = lo;
    while k < hi
        invariant
            lo <= k <= hi,
            hi <= s@.len(),
            v@ == s@.subrange(lo as int, k as int),
        decreases hi - k,
    {
        v.push(s[k]);
        k = k + 1;
        proof {
            assert(v@ =~= s@.subrange(lo as int, k as int));
        }
    }
    v
}

/// Reject keys the destination OS cannot represent as files rather than let
/// it silently mangle them (`windows` selects the Windows rules).
pub fn validate_representable(key: &str, windows: bool) -> (r: Result<(), SyncError>)
    ensures
        match representable_problem(key@, windows) {
            Some(reason) => r matches Err(SyncError::NotRepresentable { path, reason: why }) && path@ == key@ && why@ == reason,
            None => r is Ok,
        },
{
    if !windows {
        return Ok(());
    }
    let s = chars_of(key);
    let spans = split_spans(&s, '/');
    let ghost pieces = split_on(s@, '/');
    let mut i: usize = 0;
    proof {
        assert(pieces.skip(0) =~= pieces);
    }
    while i < spans.len()
        invariant
            i <= spans@.len(),
            spans@.len() == pieces.len(),
            pieces == split_on(s@, '/'),
            s@ == key@,
            forall|t: int| #![trigger spans@[t]] 0 <= t < spans@.len() ==> spans@[t].0 <= spans@[t].1 <= s@.len() && s@.subrange(
                spans@[t].0 as int,
                spans@[t].1 as int,
            ) == pieces[t],
            first_problem(pieces) == first_problem(pieces.skip(i as int)),
            windows,
        decreases spans@.len() - i,
    {
        let (lo, hi) = spans[i];
        proof {
            assert(spans@[i as int] == (lo, hi));
            let rest = pieces.skip(i as int);
            assert(rest[0] == pieces[i as int]);
            assert(rest.drop_first() =~= pieces.skip(i + 1));
        }
        if lo < hi {
            match segment_check(&s, lo, hi) {
                Some(m) => {
                    proof {
                        let rest = pieces.skip(i as int);
                        assert(pieces[i as int] == s@.subrange(lo as int, hi as int));
                        assert(rest[0] == pieces[i as int]);
                        assert(rest[0].len() > 0);
                        assert(first_problem(rest) == segment_problem(rest[0]));
                        assert(representable_problem(key@, windows) == Some(m@));
                    }
                    return Err(SyncError::NotRepresentable { path: String::from_str(key), reason: string_from_chars(&m) });
                },
                None => {},
            }
        }
        i = i + 1;
    }
    proof {
        assert(pieces.skip(pieces.len() as int) =~= Seq::<Seq<char>>::empty());
    }
    Ok(())
}

/// `s` with every `/` replaced by `\`.
pub open spec fn backslashed(s: Seq<char>) -> Seq<char> {
    s.map_values(|c: char| if c == '/' { '\\' } else { c })
}

/// A Windows absolute path not in UNC form: drive letter, `:`, separator.
pub open spec fn is_drive_absolute(s: Seq<char>) -> bool {
    &&& s.len() >= 3
    &&& (('a' <= s[0] && s[0] <= 'z') || ('A' <= s[0] && s[0] <= 'Z'))
    &&& s[1] == ':'
    &&& (s[2] == '\\' || s[2] == '/')
}

/// The path as opened: on Windows, a path of 248 bytes or more that is not
/// already extended gets the `\\?\` prefix (`\\?\UNC\` for a UNC path) with
/// its separators turned into `\`; other paths are left as they are.
pub open spec fn spec_extended(p: Seq<char>, byte_len: nat, windows: bool) -> Seq<char> {
    let b = backslashed(p);
    if !windows || (p.len() >= 4 && p.take(4) == seq!['\\', '\\', '?', '\\']) || byte_len < 248 {
        p
    } else if b.len() >= 2 && b[0] == '\\' && b[1] == '\\' {
        seq!['\\', '\\', '?', '\\', 'U', 'N', 'C', '\\'] + b.skip(2)
    } else if is_drive_absolute(p) {
        seq!['\\', '\\', '?', '\\'] + b
    } else {
        p
    }
}

/// On Windows, opt a long path into the extended-length namespace so it is
/// not cut off at `MAX_PATH`; short, relative and already-extended paths are
/// unchanged (`windows` selects the Windows rules).
pub fn extended(p: &str, windows: bool) -> (r: String)
    ensures
        r@ == spec_extended(p@, p.len() as nat, windows),
{
    let s = chars_of(p);
    let n = s.len();
    let already = n >= 4 && s[0] == '\\' && s[1] == '\\' && s[2] == '?' && s[3] == '\\';
    proof {
        if n >= 4 {
            assert(already == (s@.take(4) == seq!['\\', '\\', '?', '\\'])) by {
                if s@.take(4) == seq!['\\', '\\', '?', '\\'] {
                    assert(s@.take(4)[0] == s@[0]);
                    assert(s@.take(4)[1] == s@[1]);
                    assert(s@.take(4)[2] == s@[2]);
                    assert(s@.take(4)[3] == s@[3]);
                }
                if already {
                    assert(s@.take(4) =~= seq!['\\', '\\', '?', '\\']);
                }
            }
        }
    }
    if !windows || already || p.len() < 248 {
        return String::from_str(p);
    }
    let mut b: Vec<char> = Vec::new();
    let mut k: usize = 0;
    while k < n
        invariant
            k <= n,
            n == s@.len(),
            b@ == backslashed(s@.take(k as int)),
        decreases n - k,
    {
        let c = s[k];
        b.push(if c == '/' { '\\' } else { c });
        k = k + 1;
        proof {
            assert(b@ =~= backslashed(s@.take(k as int)));
        }
    }
    proof {
        assert(s@.take(n as int) =~= s@);
    }
    let mut out: Vec<char> = Vec::new();
    if n >= 2 && b[0] == '\\' && b[1] == '\\' {
        push_str(&mut out, "\\\\?\\UNC\\");
        proof {
            reveal_strlit("\\\\?\\UNC\\");
            assert(out@ =~= seq!['\\', '\\', '?', '\\', 'U', 'N', 'C', '\\']);
        }
        let rest = piece_chars(&b, 2, n);
        push_all(&mut out, &rest);
        proof {
            assert(b@.subrange(2, n as int) =~= b@.skip(2));
        }
        return string_from_chars(&out);
    }
    let drive = n >= 3 && (('a' <= s[0] && s[0] <= 'z') || ('A' <= s[0] && s[0] <= 'Z')) && s[1] == ':' && (s[2] == '\\' || s[2] == '/');
    if drive {
        push_str(&mut out, "\\\\?\\");
        proof {
            reveal_strlit("\\\\?\\");
            assert(out@ =~= seq!['\\', '\\', '?', '\\']);
        }
        push_all(&mut out, &b);
        return string_from_chars(&out);
    }
    String::from_str(p)
}

} // verus!
