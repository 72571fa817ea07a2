//! Importer for FreeFileSync `.ffs_batch` / `.ffs_gui` configurations, so an
//! existing setup migrates without re-entering every folder pair and exclude:
//! each `<Pair>`'s Left/Right become a job's roots, `<Compare><Variant>Content`
//! becomes verify-by-hash, `<DeletionPolicy>RecycleBin` the recycle bin,
//! path-based `<Exclude><Item>`s gitignore-style globs, and two-way `<Changes>`
//! versus uniform one-way `<Differences>` the two-way flag. Anything that does
//! not map cleanly is flagged for review.
use crate::fmt::{decimal, push_decimal, push_str, string_from_chars};
use crate::entries::views;
use crate::keys::chars_of;
use crate::text::{first_index, lemma_first_index, lemma_first_index_bound, split_on, split_spans};
use crate::text::{is_whitespace, is_ws};
use vstd::prelude::*;

verus! {

/// An XML node as the importer reads it: its local tag name (empty for text,
/// comment and processing-instruction nodes, so no lookup by tag ever finds
/// them), its attributes (local name and value, in document order), its text
/// (for an element, the first child when that is a text node) and its child
/// nodes in order.
#[derive(Debug)]
pub struct XmlElement {
    pub name: String,
    pub attributes: Vec<(String, String)>,
    pub text: Option<String>,
    pub children: Vec<XmlElement>,
}

/// `roxmltree`'s node handle, carried opaquely into the conversion below.
#[verifier::external_type_specification]
#[verifier::external_body]
pub struct ExXmlNode<'a, 'input: 'a>(roxmltree::Node<'a, 'input>);

/// The root element of a document as `roxmltree` parses it, or the parser's
/// error text.
pub uninterp spec fn xml_root(xml: Seq<char>) -> Result<XmlElement, Seq<char>>;

/// Calls `roxmltree::Document::parse` and converts the root element (and its
/// element descendants) into `XmlElement`s. Claimed: the outcome is the one
/// named by `xml_root` for exactly this text.
#[verifier::external_body]
fn parse_xml(xml: &str) -> (r: Result<XmlElement, String>)
    ensures
        match r {
            Ok(e) => xml_root(xml@) == Ok::<XmlElement, Seq<char>>(e),
            Err(m) => xml_root(xml@) == Err::<XmlElement, Seq<char>>(m@),
        },
{
    match roxmltree::Document::parse(xml) {
        Ok(doc) => Ok(element_of(doc.root_element())),
        Err(e) => Err(e.to_string()),
    }
}

/// Converts a `roxmltree` node and its subtree one for one: its local tag
/// name, attributes, text and every child node, in order. Used by
/// `parse_xml`; nothing is claimed of it beyond that.
#[verifier::external_body]
fn element_of(n: roxmltree::Node) -> XmlElement {
    let mut children = Vec::new();
    for c in n.children() {
        children.push(element_of(c));
    }
    XmlElement {
        name: n.tag_name().name().to_string(),
        attributes: n.attributes().map(|a| (a.name().to_string(), a.value().to_string())).collect(),
        text: n.text().map(|t| t.to_string()),
        children,
    }
}

// ---------------------------------------------------------------------------
// Text helpers
// ---------------------------------------------------------------------------

/// Leading white space dropped.
pub open spec fn trim_start(s: Seq<char>) -> Seq<char>
    decreases s.len(),
{
    if s.len() > 0 && is_ws(s[0]) {
        trim_start(s.drop_first())
    } else {
        s
    }
}

/// Trailing white space dropped.
pub open spec fn trim_end_ws(s: Seq<char>) -> Seq<char>
    decreases s.len(),
{
    if s.len() > 0 && is_ws(s.last()) {
        trim_end_ws(s.drop_last())
    } else {
        s
    }
}

/// White space dropped at both ends, as `str::trim` does.
pub open spec fn trim(s: Seq<char>) -> Seq<char> {
    trim_start(trim_end_ws(s))
}

/// `s[lo..hi]` trimmed, as a span.
fn trim_span(s: &Vec<char>, lo: usize, hi: usize) -> (r: (usize, usize))
    requires
        lo <= hi <= s@.len(),
    ensures
        lo <= r.0 <= r.1 <= hi,
        s@.subrange(r.0 as int, r.1 as int) == trim(s@.subrange(lo as int, hi as int)),
{
    let mut b = hi;
    while b > lo && is_whitespace(s[b - 1])
        invariant
            lo <= b <= hi,
            hi <= s@.len(),
            trim_end_ws(s@.subrange(lo as int, hi as int)) == trim_end_ws(s@.subrange(lo as int, b as int)),
        decreases b - lo,
    {
        proof {
            let t = s@.subrange(lo as int, b as int);
            assert(t.last() == s@[b - 1]);
            assert(t.drop_last() =~= s@.subrange(lo as int, b - 1));
        }
        b = b - 1;
    }
    proof {
        let t = s@.subrange(lo as int, b as int);
        if b > lo {
            assert(t.last() == s@[b - 1]);
        }
        assert(trim_end_ws(t) == t);
    }
    let mut a = lo;
    while a < b && is_whitespace(s[a])
        invariant
            lo <= a <= b <= hi,
            hi <= s@.len(),
            trim(s@.subrange(lo as int, hi as int)) == trim_start(s@.subrange(a as int, b as int)),
        decreases b - a,
    {
        proof {
            let t = s@.subrange(a as int, b as int);
            assert(t[0] == s@[a as int]);
            assert(t.drop_first() =~= s@.subrange(a + 1, b as int));
        }
        a = a + 1;
    }
    proof {
        let t = s@.subrange(a as int, b as int);
        if a < b {
            assert(t[0] == s@[a as int]);
        }
        assert(trim_start(t) == t);
    }
    (a, b)
}

/// The characters `s[lo..hi]`.
fn slice_chars(s: &Vec<char>, lo: usize, hi: usize) -> (r: Vec<char>)
    requires
        lo <= hi <= s@.len(),
    ensures
        r@ == s@.subrange(lo as int, hi as int),
{
    let mut v: Vec<char> = Vec::new();
    let mut k = lo;
    while k < hi
        invariant
            lo <= k <= hi,
            hi <= s@.len(),
            v@ == s@.subrange(lo as int, k as int),
        decreases hi - k,
    {
        v.push(s[k]);
        k = k + 1;
        proof {
            assert(v@ =~= s@.subrange(lo as int, k as int));
        }
    }
    v
}

/// `s` trimmed.
fn trimmed(s: &str) -> (r: Vec<char>)
    ensures
        r@ == trim(s@),
{
    let c = chars_of(s);
    let (a, b) = trim_span(&c, 0, c.len());
    proof {
        assert(c@.subrange(0, c@.len() as int) =~= c@);
    }
    slice_chars(&c, a, b)
}

/// ASCII letters lower-cased, everything else unchanged.
pub open spec fn ascii_lower(c: char) -> char {
    if c == 'A' { 'a' } else if c == 'B' { 'b' } else if c == 'C' { 'c' } else if c == 'D' { 'd' }
    else if c == 'E' { 'e' } else if c == 'F' { 'f' } else if c == 'G' { 'g' } else if c == 'H' { 'h' }
    else if c == 'I' { 'i' } else if c == 'J' { 'j' } else if c == 'K' { 'k' } else if c == 'L' { 'l' }
    else if c == 'M' { 'm' } else if c == 'N' { 'n' } else if c == 'O' { 'o' } else if c == 'P' { 'p' }
    else if c == 'Q' { 'q' } else if c == 'R' { 'r' } else if c == 'S' { 's' } else if c == 'T' { 't' }
    else if c == 'U' { 'u' } else if c == 'V' { 'v' } else if c == 'W' { 'w' } else if c == 'X' { 'x' }
    else if c == 'Y' { 'y' } else if c == 'Z' { 'z' } else { c }
}

fn lower_char(c: char) -> (r: char)
    ensures
        r == ascii_lower(c),
{
    match c {
        'A' => 'a', 'B' => 'b', 'C' => 'c', 'D' => 'd', 'E' => 'e', 'F' => 'f', 'G' => 'g',
        'H' => 'h', 'I' => 'i', 'J' => 'j', 'K' => 'k', 'L' => 'l', 'M' => 'm', 'N' => 'n',
        'O' => 'o', 'P' => 'p', 'Q' => 'q', 'R' => 'r', 'S' => 's', 'T' => 't', 'U' => 'u',
        'V' => 'v', 'W' => 'w', 'X' => 'x', 'Y' => 'y', 'Z' => 'z',
        _ => c,
    }
}

/// Equal ignoring ASCII case, as `str::eq_ignore_ascii_case` compares.
pub open spec fn eq_ignore_ascii_case(a: Seq<char>, b: Seq<char>) -> bool {
    a.len() == b.len() && forall|i: int| 0 <= i < a.len() ==> ascii_lower(#[trigger] a[i]) == ascii_lower(b[i])
}

fn eq_ignore_case(a: &str, b: &str) -> (r: bool)
    ensures
        r == eq_ignore_ascii_case(a@, b@),
{
    let x = chars_of(a);
    let y = chars_of(b);
    if x.len() != y.len() {
        return false;
    }
    let mut k: usize = 0;
    while k < x.len()
        invariant
            k <= x@.len(),
            x@ == a@,
            y@ == b@,
            x@.len() == y@.len(),
            forall|i: int| 0 <= i < k ==> ascii_lower(#[trigger] x@[i]) == ascii_lower(y@[i]),
        decreases x@.len() - k,
    {
        if lower_char(x[k]) != lower_char(y[k]) {
            return false;
        }
        k = k + 1;
    }
    true
}

fn same_chars(a: &Vec<char>, b: &Vec<char>) -> (r: bool)
    ensures
        r == (a@ == b@),
{
    if a.len() != b.len() {
        return false;
    }
    let mut k: usize = 0;
    while k < a.len()
        invariant
            k <= a@.len(),
            a@.len() == b@.len(),
            forall|j: int| 0 <= j < k ==> a@[j] == b@[j],
        decreases a@.len() - k,
    {
        if a[k] != b[k] {
            return false;
        }
        k = k + 1;
    }
    proof {
        assert(a@ =~= b@);
    }
    true
}

// ---------------------------------------------------------------------------
// Element queries
// ---------------------------------------------------------------------------

/// The first element of `cs` named `tag`.
pub open spec fn first_named(cs: Seq<XmlElement>, tag: Seq<char>) -> Option<int>
    decreases cs.len(),
{
    if cs.len() == 0 {
        None
    } else if cs[0].name@ == tag {
        Some(0)
    } else {
        match first_named(cs.drop_first(), tag) {
            Some(i) => Some(i + 1),
            None => None,
        }
    }
}

/// The first child of `n` named `tag`.
pub open spec fn child(n: XmlElement, tag: Seq<char>) -> Option<XmlElement> {
    match first_named(n.children@, tag) {
        Some(i) => Some(n.children@[i]),
        None => None,
    }
}

pub open spec fn opt_child(n: Option<XmlElement>, tag: Seq<char>) -> Option<XmlElement> {
    match n {
        Some(e) => child(e, tag),
        None => None,
    }
}

proof fn lemma_first_named(cs: Seq<XmlElement>, tag: Seq<char>, i: int)
    requires
        0 <= i <= cs.len(),
        forall|k: int| 0 <= k < i ==> (#[trigger] cs[k]).name@ != tag,
    ensures
        i < cs.len() && cs[i].name@ == tag ==> first_named(cs, tag) == Some(i),
        i == cs.len() ==> first_named(cs, tag) is None,
    decreases i,
{
    if i > 0 {
        assert forall|k: int| 0 <= k < i - 1 implies (#[trigger] cs.drop_first()[k]).name@ != tag by {
            assert(cs.drop_first()[k] == cs[k + 1]);
        }
        lemma_first_named(cs.drop_first(), tag, i - 1);
        if i < cs.len() {
            assert(cs.drop_first()[i - 1] == cs[i]);
        }
    }
}

fn name_is(e: &XmlElement, tag: &str) -> (r: bool)
    ensures
        r == (e.name@ == tag@),
{
    let a = chars_of(e.name.as_str());
    let b = chars_of(tag);
    same_chars(&a, &b)
}

/// The first child of `n` named `tag`.
fn find_child<'a>(n: &'a XmlElement, tag: &str) -> (r: Option<&'a XmlElement>)
    ensures
        match child(*n, tag@) {
            Some(c) => r == Some(&c),
            None => r is None,
        },
{
    let mut k: usize = 0;
    while k < n.children.len()
        invariant
            k <= n.children@.len(),
            forall|j: int| 0 <= j < k ==> (#[trigger] n.children@[j]).name@ != tag@,
        decreases n.children@.len() - k,
    {
        if name_is(&n.children[k], tag) {
            proof {
                lemma_first_named(n.children@, tag@, k as int);
            }
            return Some(&n.children[k]);
        }
        k = k + 1;
    }
    proof {
        lemma_first_named(n.children@, tag@, k as int);
    }
    None
}

/// The value of the first attribute of `n` named `name`.
pub open spec fn attr_in(attrs: Seq<(String, String)>, name: Seq<char>) -> Option<Seq<char>>
    decreases attrs.len(),
{
    if attrs.len() == 0 {
        None
    } else if attrs[0].0@ == name {
        Some(attrs[0].1@)
    } else {
        attr_in(attrs.drop_first(), name)
    }
}

pub open spec fn attr(n: XmlElement, name: Seq<char>) -> Option<Seq<char>> {
    attr_in(n.attributes@, name)
}

fn find_attr<'a>(n: &'a XmlElement, name: &str) -> (r: Option<&'a String>)
    ensures
        match attr(*n, name@) {
            Some(v) => r matches Some(s) && s@ == v,
            None => r is None,
        },
{
    let mut k: usize = 0;
    let b = chars_of(name);
    proof {
        assert(n.attributes@.skip(0) =~= n.attributes@);
    }
    while k < n.attributes.len()
        invariant
            k <= n.attributes@.len(),
            b@ == name@,
            attr(*n, name@) == attr_in(n.attributes@.skip(k as int), name@),
        decreases n.attributes@.len() - k,
    {
        let a = chars_of(n.attributes[k].0.as_str());
        proof {
            let rest = n.attributes@.skip(k as int);
            assert(rest[0] == n.attributes@[k as int]);
            assert(rest.drop_first() =~= n.attributes@.skip(k + 1));
        }
        if same_chars(&a, &b) {
            return Some(&n.attributes[k].1);
        }
        k = k + 1;
    }
    proof {
        assert(n.attributes@.skip(k as int) =~= Seq::<(String, String)>::empty());
    }
    None
}

pub open spec fn text_of(n: Option<XmlElement>) -> Option<Seq<char>> {
    match n {
        Some(e) => match e.text {
            Some(t) => Some(t@),
            None => None,
        },
        None => None,
    }
}

// ---------------------------------------------------------------------------
// Settings read from the config
// ---------------------------------------------------------------------------

/// `<Compare><Variant>Content</Variant>`, case-insensitively.
pub open spec fn spec_compare_is_content(compare: Option<XmlElement>) -> bool {
    match text_of(opt_child(compare, "Variant"@)) {
        Some(t) => eq_ignore_ascii_case(t, "Content"@),
        None => false,
    }
}

fn compare_is_content(compare: Option<&XmlElement>) -> (r: bool)
    ensures
        r == spec_compare_is_content(opt_el(compare)),
{
    match compare {
        Some(c) => match find_child(c, "Variant") {
            Some(v) => match &v.text {
                Some(t) => eq_ignore_case(t.as_str(), "Content"),
                None => false,
            },
            None => false,
        },
        None => false,
    }
}

pub open spec fn opt_el(n: Option<&XmlElement>) -> Option<XmlElement> {
    match n {
        Some(e) => Some(*e),
        None => None,
    }
}

/// `<DeletionPolicy>RecycleBin</DeletionPolicy>` (case-insensitively); with
/// no policy, FreeFileSync's default, the recycle bin.
pub open spec fn spec_deletion_is_recycle(sync: Option<XmlElement>) -> bool {
    match text_of(opt_child(sync, "DeletionPolicy"@)) {
        Some(t) => eq_ignore_ascii_case(t, "RecycleBin"@),
        None => true,
    }
}

fn deletion_is_recycle(sync: Option<&XmlElement>) -> (r: bool)
    ensures
        r == spec_deletion_is_recycle(opt_el(sync)),
{
    match sync {
        Some(s) => match find_child(s, "DeletionPolicy") {
            Some(d) => match &d.text {
                Some(t) => eq_ignore_case(t.as_str(), "RecycleBin"),
                None => true,
            },
            None => true,
        },
        None => true,
    }
}

/// One of the `Create`/`Update`/`Delete` attributes points to `dir`.
pub open spec fn spec_attrs_point(n: XmlElement, dir: Seq<char>) -> bool {
    attr(n, "Create"@) == Some(dir) || attr(n, "Update"@) == Some(dir) || attr(n, "Delete"@) == Some(dir)
}

fn attr_is(n: &XmlElement, name: &str, dir: &str) -> (r: bool)
    ensures
        r == (attr(*n, name@) == Some(dir@)),
{
    match find_attr(n, name) {
        Some(v) => {
            let a = chars_of(v.as_str());
            let b = chars_of(dir);
            same_chars(&a, &b)
        },
        None => false,
    }
}

fn attrs_point(n: &XmlElement, dir: &str) -> (r: bool)
    ensures
        r == spec_attrs_point(*n, dir@),
{
    attr_is(n, "Create", dir) || attr_is(n, "Update", dir) || attr_is(n, "Delete", dir)
}

/// The `<Differences>` attributes present, in the order LeftOnly, LeftNewer,
/// RightNewer, RightOnly.
pub open spec fn diff_values(d: XmlElement) -> Seq<Seq<char>> {
    let opt = |o: Option<Seq<char>>| -> Seq<Seq<char>> {
        match o {
            Some(v) => seq![v],
            None => Seq::empty(),
        }
    };
    opt(attr(d, "LeftOnly"@)) + opt(attr(d, "LeftNewer"@)) + opt(attr(d, "RightNewer"@)) + opt(attr(d, "RightOnly"@))
}

/// Is the synchronisation two-way? No `<Synchronize>` or a `<TwoWay>` is;
/// `<Changes>` is when left changes go right and right changes go left;
/// `<Differences>` is unless every present direction is the same (a mirror).
pub open spec fn spec_detect_two_way(sync: Option<XmlElement>) -> bool {
    match sync {
        None => true,
        Some(s) => if child(s, "TwoWay"@) is Some {
            true
        } else if child(s, "Changes"@) is Some {
            let ch = child(s, "Changes"@)->0;
            let l2r = match child(ch, "Left"@) {
                Some(l) => spec_attrs_point(l, "right"@),
                None => false,
            };
            let r2l = match child(ch, "Right"@) {
                Some(r) => spec_attrs_point(r, "left"@),
                None => false,
            };
            l2r && r2l
        } else if child(s, "Differences"@) is Some {
            let vals = diff_values(child(s, "Differences"@)->0);
            if vals.len() == 0 {
                true
            } else {
                !(forall|i: int| 0 <= i < vals.len() ==> #[trigger] vals[i] == vals[0])
            }
        } else {
            true
        },
    }
}

fn push_attr_value(vals: &mut Vec<Vec<char>>, d: &XmlElement, name: &str)
    ensures
        final(vals)@.len() == old(vals)@.len() + (if attr(*d, name@) is Some { 1int } else { 0int }),
        forall|i: int| 0 <= i < old(vals)@.len() ==> (#[trigger] final(vals)@[i])@ == old(vals)@[i]@,
        attr(*d, name@) matches Some(v) ==> final(vals)@[old(vals)@.len() as int]@ == v,
{
    match find_attr(d, name) {
        Some(v) => {
            vals.push(chars_of(v.as_str()));
        },
        None => {},
    }
}

pub open spec fn char_views(v: Seq<Vec<char>>) -> Seq<Seq<char>> {
    Seq::new(v.len(), |i: int| v[i]@)
}

fn detect_two_way(sync: Option<&XmlElement>) -> (r: bool)
    ensures
        r == spec_detect_two_way(opt_el(sync)),
{
    let s = match sync {
        Some(s) => s,
        None => {
            return true;
        },
    };
    if find_child(s, "TwoWay").is_some() {
        return true;
    }
    match find_child(s, "Changes") {
        Some(changes) => {
            let l2r = match find_child(changes, "Left") {
                Some(l) => attrs_point(l, "right"),
                None => false,
            };
            let r2l = match find_child(changes, "Right") {
                Some(rt) => attrs_point(rt, "left"),
                None => false,
            };
            return l2r && r2l;
        },
        None => {},
    }
    match find_child(s, "Differences") {
        Some(diff) => {
            let mut vals: Vec<Vec<char>> = Vec::new();
            push_attr_value(&mut vals, diff, "LeftOnly");
            push_attr_value(&mut vals, diff, "LeftNewer");
            push_attr_value(&mut vals, diff, "RightNewer");
            push_attr_value(&mut vals, diff, "RightOnly");
            proof {
                assert(char_views(vals@) =~= diff_values(*diff));
            }
            if vals.len() == 0 {
                return true;
            }
            let mut k: usize = 1;
            while k < vals.len()
                invariant
                    1 <= k <= vals@.len(),
                    char_views(vals@) == diff_values(*diff),
                    opt_el(sync) == Some(*s),
                    child(*s, "TwoWay"@) is None,
                    child(*s, "Changes"@) is None,
                    child(*s, "Differences"@) == Some(*diff),
                    forall|i: int| 0 <= i < k ==> #[trigger] vals@[i]@ == vals@[0]@,
                decreases vals@.len() - k,
            {
                if !same_chars(&vals[k], &vals[0]) {
                    proof {
                        let dv = diff_values(*diff);
                        assert(char_views(vals@)[k as int] != char_views(vals@)[0]);
                        assert(dv[k as int] != dv[0]);
                        assert(!(forall|i: int| 0 <= i < dv.len() ==> #[trigger] dv[i] == dv[0]));
                    }
                    return true;
                }
                k = k + 1;
            }
            proof {
                let dv = diff_values(*diff);
                assert forall|i: int| 0 <= i < dv.len() implies #[trigger] dv[i] == dv[0] by {
                    assert(dv[i] == char_views(vals@)[i]);
                    assert(vals@[i]@ == vals@[0]@);
                }
            }
            false
        },
        None => true,
    }
}

// ---------------------------------------------------------------------------
// Filters
// ---------------------------------------------------------------------------

/// The first piece that is not blank once trimmed, trimmed (empty if none).
pub open spec fn first_nonblank(ps: Seq<Seq<char>>) -> Seq<char>
    decreases ps.len(),
{
    if ps.len() == 0 {
        Seq::empty()
    } else if trim(ps[0]).len() > 0 {
        trim(ps[0])
    } else {
        first_nonblank(ps.drop_first())
    }
}

/// One FreeFileSync filter item as a gitignore-style glob, with a review
/// note when it did not map cleanly: `\` becomes `/`; a leading `*/` ("at
/// any depth") is dropped, since an unanchored gitignore pattern already
/// matches at any depth; an item holding `|` keeps its first non-blank part
/// and is flagged, as is one ending in `\*` (contents-of), which has no exact
/// equivalent. A blank item yields nothing.
pub open spec fn spec_ffs_to_glob(item: Seq<char>) -> (Option<Seq<char>>, Option<Seq<char>>) {
    let raw = trim(item);
    let bar = first_index(raw, '|') is Some;
    let pat = if bar {
        first_nonblank(split_on(raw, '|'))
    } else {
        raw
    };
    let contents_of = pat.len() >= 2 && pat[pat.len() - 2] == '\\' && pat[pat.len() - 1] == '*';
    let g0 = pat.map_values(|c: char| if c == '\\' { '/' } else { c });
    let g = if g0.len() >= 2 && g0[0] == '*' && g0[1] == '/' {
        g0.skip(2)
    } else {
        g0
    };
    if pat.len() == 0 {
        (None, None)
    } else {
        (Some(g), if bar || contents_of {
            Some("Review imported exclude: '"@ + raw + "'  →  '"@ + g + "'"@)
        } else {
            None
        })
    }
}

fn ffs_to_glob(item: &str) -> (r: (Option<String>, Option<String>))
    ensures
        match spec_ffs_to_glob(item@).0 {
            Some(g) => r.0 matches Some(s) && s@ == g,
            None => r.0 is None,
        },
        match spec_ffs_to_glob(item@).1 {
            Some(n) => r.1 matches Some(s) && s@ == n,
            None => r.1 is None,
        },
{
    let raw = trimmed(item);
    let bar = crate::text::find_char(&raw, 0, raw.len(), '|');
    proof {
        assert(raw@.subrange(0, raw@.len() as int) =~= raw@);
    }
    let pat: Vec<char> = match bar {
        Some(_) => {
            let spans = split_spans(&raw, '|');
            let ghost ps = split_on(raw@, '|');
            let mut found: Vec<char> = Vec::new();
            let mut k: usize = 0;
            let mut done = false;
            proof {
                assert(ps.skip(0) =~= ps);
            }
            while k < spans.len() && !done
                invariant
                    k <= spans@.len(),
                    spans@.len() == ps.len(),
                    forall|t: int| #![trigger spans@[t]] 0 <= t < spans@.len() ==> spans@[t].0 <= spans@[t].1 <= raw@.len()
                        && raw@.subrange(spans@[t].0 as int, spans@[t].1 as int) == ps[t],
                    done ==> found@ == first_nonblank(ps),
                    !done ==> first_nonblank(ps) == first_nonblank(ps.skip(k as int)) && found@.len() == 0,
                decreases spans@.len() - k + (if done { 0int } else { 1int }),
            {
                let (lo, hi) = spans[k];
                proof {
                    assert(spans@[k as int] == (lo, hi));
                    let rest = ps.skip(k as int);
                    assert(rest[0] == ps[k as int]);
                    assert(rest.drop_first() =~= ps.skip(k + 1));
                }
                let (a, b) = trim_span(&raw, lo, hi);
                if b > a {
                    found = slice_chars(&raw, a, b);
                    done = true;
                } else {
                    k = k + 1;
                }
            }
            proof {
                if !done {
                    assert(ps.skip(k as int) =~= Seq::<Seq<char>>::empty());
                }
            }
            found
        },
        None => raw.clone(),
    };
    proof {
        lemma_first_index_bound(raw@, '|');
    }
    if pat.len() == 0 {
        return (None, None);
    }
    let n = pat.len();
    let contents_of = n >= 2 && pat[n - 2] == '\\' && pat[n - 1] == '*';
    let review = bar.is_some() || contents_of;
    let mut g: Vec<char> = Vec::new();
    let mut k: usize = 0;
    while k < n
        invariant
            k <= n,
            n == pat@.len(),
            g@ == pat@.take(k as int).map_values(|c: char| if c == '\\' { '/' } else { c }),
        decreases n - k,
    {
        let c = pat[k];
        g.push(if c == '\\' { '/' } else { c });
        k = k + 1;
        proof {
            assert(g@ =~= pat@.take(k as int).map_values(|c: char| if c == '\\' { '/' } else { c }));
        }
    }
    proof {
        assert(pat@.take(n as int) =~= pat@);
    }
    let strip = g.len() >= 2 && g[0] == '*' && g[1] == '/';
    let glob: Vec<char> = if strip {
        slice_chars(&g, 2, g.len())
    } else {
        g
    };
    proof {
        if strip {
            assert(g@.subrange(2, g@.len() as int) =~= g@.skip(2));
        }
    }
    let note = if review {
        let mut m: Vec<char> = Vec::new();
        push_str(&mut m, "Review imported exclude: '");
        push_chars(&mut m, &raw);
        push_str(&mut m, "'  →  '");
        push_chars(&mut m, &glob);
        push_str(&mut m, "'");
        Some(string_from_chars(&m))
    } else {
        None
    };
    (Some(string_from_chars(&glob)), note)
}

fn push_chars(out: &mut Vec<char>, t: &Vec<char>)
    ensures
        final(out)@ == old(out)@ + t@,
{
    let ghost before = out@;
    let mut k: usize = 0;
    while k < t.len()
        invariant
            k <= t@.len(),
            out@ == before + t@.take(k as int),
        decreases t@.len() - k,
    {
        out.push(t[k]);
        k = k + 1;
        proof {
            assert(out@ =~= before + t@.take(k as int));
        }
    }
    proof {
        assert(t@.take(t@.len() as int) =~= t@);
    }
}

pub open spec fn opt_push(s: Seq<Seq<char>>, o: Option<Seq<char>>) -> Seq<Seq<char>> {
    match o {
        Some(x) => s.push(x),
        None => s,
    }
}

/// The globs and notes of the `<Item>` children (with text) of an
/// `<Exclude>`, in order.
pub open spec fn excludes_from(cs: Seq<XmlElement>) -> (Seq<Seq<char>>, Seq<Seq<char>>)
    decreases cs.len(),
{
    if cs.len() == 0 {
        (Seq::empty(), Seq::empty())
    } else {
        let prev = excludes_from(cs.drop_last());
        let c = cs.last();
        if c.name@ == "Item"@ && c.text is Some {
            let t = spec_ffs_to_glob(c.text->0@);
            (opt_push(prev.0, t.0), opt_push(prev.1, t.1))
        } else {
            prev
        }
    }
}

/// The excludes of a `<Filter>`: its `<Exclude>`'s items.
pub open spec fn spec_collect_excludes(filter: Option<XmlElement>) -> (Seq<Seq<char>>, Seq<Seq<char>>) {
    match opt_child(filter, "Exclude"@) {
        Some(e) => excludes_from(e.children@),
        None => (Seq::empty(), Seq::empty()),
    }
}

fn collect_excludes(filter: Option<&XmlElement>) -> (r: (Vec<String>, Vec<String>))
    ensures
        views(r.0@) == spec_collect_excludes(opt_el(filter)).0,
        views(r.1@) == spec_collect_excludes(opt_el(filter)).1,
{
    let mut globs: Vec<String> = Vec::new();
    let mut notes: Vec<String> = Vec::new();
    let f = match filter {
        Some(f) => f,
        None => {
            proof {
                assert(views(globs@) =~= Seq::<Seq<char>>::empty());
                assert(views(notes@) =~= Seq::<Seq<char>>::empty());
            }
            return (globs, notes);
        },
    };
    let excl = match find_child(f, "Exclude") {
        Some(e) => e,
        None => {
            proof {
                assert(views(globs@) =~= Seq::<Seq<char>>::empty());
                assert(views(notes@) =~= Seq::<Seq<char>>::empty());
            }
            return (globs, notes);
        },
    };
    let mut k: usize = 0;
    proof {
        assert(excl.children@.take(0) =~= Seq::<XmlElement>::empty());
        assert(views(globs@) =~= Seq::<Seq<char>>::empty());
        assert(views(notes@) =~= Seq::<Seq<char>>::empty());
    }
    while k < excl.children.len()
        invariant
            k <= excl.children@.len(),
            views(globs@) == excludes_from(excl.children@.take(k as int)).0,
            views(notes@) == excludes_from(excl.children@.take(k as int)).1,
        decreases excl.children@.len() - k,
    {
        let item = &excl.children[k];
        proof {
            assert(excl.children@.take(k + 1).drop_last() =~= excl.children@.take(k as int));
            assert(excl.children@.take(k + 1).last() == *item);
        }
        let ghost g0 = globs@;
        let ghost n0 = notes@;
        if name_is(item, "Item") {
            match &item.text {
                Some(text) => {
                    let (g, note) = ffs_to_glob(text.as_str());
                    match g {
                        Some(g) => {
                            globs.push(g);
                        },
                        None => {},
                    }
                    match note {
                        Some(n) => {
                            notes.push(n);
                        },
                        None => {},
                    }
                    proof {
                        let t = spec_ffs_to_glob(text@);
                        assert(views(globs@) =~= opt_push(views(g0), t.0));
                        assert(views(notes@) =~= opt_push(views(n0), t.1));
                    }
                },
                None => {},
            }
        }
        k = k + 1;
    }
    proof {
        assert(excl.children@.take(excl.children@.len() as int) =~= excl.children@);
    }
    (globs, notes)
}

// ---------------------------------------------------------------------------
// Hints, names, de-duplication
// ---------------------------------------------------------------------------

/// Exclude names usually already covered by a `.gitignore`.
pub open spec fn common_ignored() -> Seq<Seq<char>> {
    seq![
        "node_modules"@, ".git"@, "build"@, "dist"@, "__pycache__"@, "venv"@, ".venv"@, ".nuxt"@,
        ".angular"@, ".yarn"@, ".idea"@, ".terraform"@, ".pytest_cache"@, ".ruff_cache"@, ".settings"@,
        "target"@, ".metadata"@, "bin"@,
    ]
}

fn common_list() -> (r: Vec<&'static str>)
    ensures
        r@.len() == common_ignored().len(),
        forall|i: int| 0 <= i < r@.len() ==> (#[trigger] r@[i])@ == common_ignored()[i],
{
    vec![
        "node_modules", ".git", "build", "dist", "__pycache__", "venv", ".venv", ".nuxt",
        ".angular", ".yarn", ".idea", ".terraform", ".pytest_cache", ".ruff_cache", ".settings",
        "target", ".metadata", "bin",
    ]
}

/// Leading `c`s dropped.
pub open spec fn trim_start_char(s: Seq<char>, c: char) -> Seq<char>
    decreases s.len(),
{
    if s.len() > 0 && s[0] == c {
        trim_start_char(s.drop_first(), c)
    } else {
        s
    }
}

pub open spec fn ends_with(s: Seq<char>, t: Seq<char>) -> bool {
    s.len() >= t.len() && s.skip(s.len() - t.len()) == t
}

/// A glob (slashes trimmed at both ends) that is, or ends with, a commonly
/// ignored name.
pub open spec fn redundant_glob(g: Seq<char>) -> bool {
    let s = crate::job::trim_end(trim_start_char(g, '/'), '/');
    exists|i: int| 0 <= i < common_ignored().len() && ends_with(s, #[trigger] common_ignored()[i])
}

pub open spec fn redundant_count(gs: Seq<Seq<char>>) -> nat
    decreases gs.len(),
{
    if gs.len() == 0 {
        0
    } else {
        redundant_count(gs.drop_last()) + if redundant_glob(gs.last()) {
            1nat
        } else {
            0nat
        }
    }
}

pub open spec fn hint_tail() -> Seq<char> {
    " of these excludes (node_modules, .git, build, dist, __pycache__, .venv…) are usually already covered by .gitignore. With “Respect .gitignore” on you can likely drop most of them."@
}

/// A hint when three or more excludes are likely covered by `.gitignore`.
pub open spec fn spec_gitignore_hint(gs: Seq<Seq<char>>) -> Option<Seq<char>> {
    if redundant_count(gs) >= 3 {
        Some(decimal(redundant_count(gs)) + hint_tail())
    } else {
        None
    }
}

fn ends_with_chars(s: &Vec<char>, lo: usize, hi: usize, t: &Vec<char>) -> (r: bool)
    requires
        lo <= hi <= s@.len(),
    ensures
        r == ends_with(s@.subrange(lo as int, hi as int), t@),
{
    let ghost sub = s@.subrange(lo as int, hi as int);
    if hi - lo < t.len() {
        return false;
    }
    let off = hi - t.len();
    let mut k: usize = 0;
    while k < t.len()
        invariant
            k <= t@.len(),
            lo <= off,
            off + t@.len() == hi,
            hi <= s@.len(),
            sub == s@.subrange(lo as int, hi as int),
            forall|j: int| 0 <= j < k ==> #[trigger] t@[j] == s@[off + j],
        decreases t@.len() - k,
    {
        if s[off + k] != t[k] {
            proof {
                assert(sub.skip(sub.len() - t@.len())[k as int] == s@[off + k]);
            }
            return false;
        }
        k = k + 1;
    }
    proof {
        assert(sub.skip(sub.len() - t@.len()) =~= t@);
    }
    true
}

fn is_redundant(g: &str) -> (r: bool)
    ensures
        r == redundant_glob(g@),
{
    let s = chars_of(g);
    let n = s.len();
    let mut a: usize = 0;
    proof {
        assert(s@.subrange(0, n as int) =~= s@);
    }
    while a < n && s[a] == '/'
        invariant
            a <= n,
            n == s@.len(),
            trim_start_char(s@, '/') == trim_start_char(s@.subrange(a as int, n as int), '/'),
        decreases n - a,
    {
        proof {
            let t = s@.subrange(a as int, n as int);
            assert(t[0] == s@[a as int]);
            assert(t.drop_first() =~= s@.subrange(a + 1, n as int));
        }
        a = a + 1;
    }
    proof {
        assert(s@.subrange(0, n as int) =~= s@);
        let t = s@.subrange(a as int, n as int);
        if a < n {
            assert(t[0] == s@[a as int]);
        }
        assert(trim_start_char(t, '/') == t);
    }
    let mut b = n;
    while b > a && s[b - 1] == '/'
        invariant
            a <= b <= n,
            n == s@.len(),
            crate::job::trim_end(s@.subrange(a as int, n as int), '/') == crate::job::trim_end(
                s@.subrange(a as int, b as int),
                '/',
            ),
        decreases b - a,
    {
        proof {
            let t = s@.subrange(a as int, b as int);
            assert(t.last() == s@[b - 1]);
            assert(t.drop_last() =~= s@.subrange(a as int, b - 1));
        }
        b = b - 1;
    }
    proof {
        let t = s@.subrange(a as int, b as int);
        if b > a {
            assert(t.last() == s@[b - 1]);
        }
        assert(crate::job::trim_end(t, '/') == t);
    }
    let names = common_list();
    let mut i: usize = 0;
    while i < names.len()
        invariant
            i <= names@.len(),
            a <= b <= s@.len(),
            s@ == g@,
            crate::job::trim_end(trim_start_char(g@, '/'), '/') == s@.subrange(a as int, b as int),
            names@.len() == common_ignored().len(),
            forall|j: int| 0 <= j < names@.len() ==> (#[trigger] names@[j])@ == common_ignored()[j],
            forall|j: int| 0 <= j < i ==> !ends_with(s@.subrange(a as int, b as int), #[trigger] common_ignored()[j]),
        decreases names@.len() - i,
    {
        let c = chars_of(names[i]);
        if ends_with_chars(&s, a, b, &c) {
            proof {
                assert(ends_with(s@.subrange(a as int, b as int), common_ignored()[i as int]));
            }
            return true;
        }
        i = i + 1;
    }
    false
}

fn gitignore_hint(globs: &Vec<String>) -> (r: Option<String>)
    ensures
        match spec_gitignore_hint(views(globs@)) {
            Some(h) => r matches Some(s) && s@ == h,
            None => r is None,
        },
{
    let mut n: u64 = 0;
    let mut k: usize = 0;
    while k < globs.len()
        invariant
            k <= globs@.len(),
            n <= k,
            n == redundant_count(views(globs@).take(k as int)),
        decreases globs@.len() - k,
    {
        proof {
            assert(views(globs@).take(k + 1).drop_last() =~= views(globs@).take(k as int));
            assert(views(globs@).take(k + 1).last() == globs@[k as int]@);
        }
        if is_redundant(globs[k].as_str()) {
            n = n + 1;
        }
        k = k + 1;
    }
    proof {
        assert(views(globs@).take(globs@.len() as int) =~= views(globs@));
    }
    if n >= 3 {
        let mut m: Vec<char> = Vec::new();
        push_decimal(&mut m, n);
        push_str(
            &mut m,
            " of these excludes (node_modules, .git, build, dist, __pycache__, .venv…) are usually already covered by .gitignore. With “Respect .gitignore” on you can likely drop most of them.",
        );
        Some(string_from_chars(&m))
    } else {
        None
    }
}

pub open spec fn is_sep(c: char) -> bool {
    c == '\\' || c == '/'
}

/// Trailing separators dropped.
pub open spec fn trim_end_seps(s: Seq<char>) -> Seq<char>
    decreases s.len(),
{
    if s.len() > 0 && is_sep(s.last()) {
        trim_end_seps(s.drop_last())
    } else {
        s
    }
}

/// The text after the last separator (all of it without one).
pub open spec fn last_segment(s: Seq<char>) -> Seq<char>
    decreases s.len(),
{
    if s.len() == 0 {
        s
    } else if is_sep(s.last()) {
        Seq::empty()
    } else {
        last_segment(s.drop_last()).push(s.last())
    }
}

/// A job's name: the last path segment of the left root, or `left ↔ right`
/// when that is empty.
pub open spec fn spec_derive_name(left: Seq<char>, right: Seq<char>) -> Seq<char> {
    let l = last_segment(trim_end_seps(left));
    if l.len() == 0 {
        left + " ↔ "@ + right
    } else {
        l
    }
}

fn derive_name(left: &Vec<char>, right: &Vec<char>) -> (r: String)
    ensures
        r@ == spec_derive_name(left@, right@),
{
    let mut b = left.len();
    proof {
        assert(left@.take(left@.len() as int) =~= left@);
    }
    while b > 0 && (left[b - 1] == '\\' || left[b - 1] == '/')
        invariant
            b <= left@.len(),
            trim_end_seps(left@) == trim_end_seps(left@.take(b as int)),
        decreases b,
    {
        proof {
            let t = left@.take(b as int);
            assert(t.last() == left@[b - 1]);
            assert(t.drop_last() =~= left@.take(b - 1));
        }
        b = b - 1;
    }
    proof {
        assert(left@.take(left@.len() as int) =~= left@);
        let t = left@.take(b as int);
        if b > 0 {
            assert(t.last() == left@[b - 1]);
        }
        assert(trim_end_seps(t) == t);
    }
    let mut a = b;
    while a > 0 && !(left[a - 1] == '\\' || left[a - 1] == '/')
        invariant
            a <= b <= left@.len(),
            last_segment(left@.take(b as int)) == last_segment(left@.take(a as int)) + left@.subrange(a as int, b as int),
        decreases a,
    {
        proof {
            let t = left@.take(a as int);
            assert(t.last() == left@[a - 1]);
            assert(t.drop_last() =~= left@.take(a - 1));
            assert(left@.subrange(a - 1, b as int) =~= seq![left@[a - 1]] + left@.subrange(a as int, b as int));
            assert(last_segment(t) == last_segment(left@.take(a - 1)).push(left@[a - 1]));
            assert(last_segment(left@.take(a - 1)).push(left@[a - 1]) + left@.subrange(a as int, b as int)
                =~= last_segment(left@.take(a - 1)) + left@.subrange(a - 1, b as int));
        }
        a = a - 1;
    }
    proof {
        let t = left@.take(a as int);
        if a > 0 {
            assert(t.last() == left@[a - 1]);
            assert(last_segment(t) =~= Seq::<char>::empty());
        } else {
            assert(last_segment(t) =~= Seq::<char>::empty());
        }
        assert(last_segment(left@.take(b as int)) =~= left@.subrange(a as int, b as int));
    }
    if a == b {
        let mut m: Vec<char> = Vec::new();
        push_chars(&mut m, left);
        push_str(&mut m, " ↔ ");
        push_chars(&mut m, right);
        string_from_chars(&m)
    } else {
        let seg = slice_chars(left, a, b);
        string_from_chars(&seg)
    }
}

/// First occurrences kept, in order.
pub open spec fn dedup_seq(s: Seq<Seq<char>>) -> Seq<Seq<char>>
    decreases s.len(),
{
    if s.len() == 0 {
        s
    } else {
        let d = dedup_seq(s.drop_last());
        if d.contains(s.last()) {
            d
        } else {
            d.push(s.last())
        }
    }
}

fn contains_text(v: &Vec<String>, x: &String) -> (r: bool)
    ensures
        r == views(v@).contains(x@),
{
    let xc = chars_of(x.as_str());
    let mut k: usize = 0;
    while k < v.len()
        invariant
            k <= v@.len(),
            xc@ == x@,
            forall|j: int| 0 <= j < k ==> (#[trigger] v@[j])@ != x@,
        decreases v@.len() - k,
    {
        let c = chars_of(v[k].as_str());
        if same_chars(&c, &xc) {
            proof {
                assert(views(v@)[k as int] == x@);
            }
            return true;
        }
        k = k + 1;
    }
    proof {
        if views(v@).contains(x@) {
            let j = choose|j: int| 0 <= j < views(v@).len() && views(v@)[j] == x@;
            assert(v@[j]@ == x@);
        }
    }
    false
}

/// Drop repeated strings, keeping each one's first occurrence.
fn dedup(v: Vec<String>) -> (r: Vec<String>)
    ensures
        views(r@) == dedup_seq(views(v@)),
{
    let mut out: Vec<String> = Vec::new();
    let mut rest = v;
    let ghost all = views(rest@);
    let ghost mut k: int = 0;
    proof {
        assert(views(out@) =~= dedup_seq(all.take(0)));
        assert(views(rest@) =~= all.skip(0));
    }
    while rest.len() > 0
        invariant
            0 <= k <= all.len(),
            views(rest@) == all.skip(k),
            views(out@) == dedup_seq(all.take(k)),
        decreases rest@.len(),
    {
        let ghost r0 = rest@;
        proof {
            assert(views(r0).len() == r0.len());
            assert(k < all.len());
            assert(views(r0)[0] == r0[0]@);
            assert(all.skip(k)[0] == all[k]);
        }
        let x = rest.remove(0);
        proof {
            assert(x@ == all[k]);
            assert(all.take(k + 1).drop_last() =~= all.take(k));
            assert(all.take(k + 1).last() == all[k]);
        }
        let ghost before = views(out@);
        if !contains_text(&out, &x) {
            out.push(x);
            proof {
                assert(views(out@) =~= before.push(all[k]));
            }
        }
        proof {
            assert(rest@ == r0.remove(0));
            assert forall|i: int| 0 <= i < views(rest@).len() implies #[trigger] views(rest@)[i] == all.skip(k + 1)[i] by {
                assert(rest@[i] == r0[i + 1]);
                assert(views(r0)[i + 1] == all.skip(k)[i + 1]);
            }
            assert(views(rest@) =~= all.skip(k + 1));
            k = k + 1;
        }
    }
    proof {
        assert(all.skip(k) =~= Seq::<Seq<char>>::empty());
        assert(all.take(k) =~= all);
    }
    out
}

// ---------------------------------------------------------------------------
// The import
// ---------------------------------------------------------------------------

/// One imported folder pair, ready to become a job.
#[derive(Debug)]
pub struct ImportedJob {
    pub name: String,
    pub left: String,
    pub right: String,
    /// `false`: FreeFileSync had this as a one-way mirror (left to right).
    pub two_way: bool,
    pub use_recycle_bin: bool,
    pub verify_by_hash: bool,
    pub exclude_globs: Vec<String>,
    pub warnings: Vec<String>,
    /// Set when many excludes are likely covered by `.gitignore`.
    pub gitignore_hint: Option<String>,
}

#[derive(Debug)]
pub struct FfsImport {
    pub jobs: Vec<ImportedJob>,
    pub notes: Vec<String>,
}

pub open spec fn mirror_warning() -> Seq<char> {
    "FreeFileSync had this pair as a one-way mirror (left → right). fast-file-sync currently does two-way sync, which would also propagate deletions back from the right side — review before applying."@
}

pub open spec fn share_warning() -> Seq<char> {
    "This pair targets a network share (UNC path); it must be online to sync."@
}

/// A pair's root, trimmed (empty when missing).
pub open spec fn pair_side(p: XmlElement, tag: Seq<char>) -> Seq<char> {
    trim(
        match text_of(child(p, tag)) {
            Some(t) => t,
            None => Seq::empty(),
        },
    )
}

/// A `<Pair>` with both roots set becomes a job; others are skipped.
pub open spec fn accepted(p: XmlElement) -> bool {
    p.name@ == "Pair"@ && pair_side(p, "Left"@).len() > 0 && pair_side(p, "Right"@).len() > 0
}

pub open spec fn accepted_pairs(cs: Seq<XmlElement>) -> Seq<XmlElement>
    decreases cs.len(),
{
    if cs.len() == 0 {
        Seq::empty()
    } else if accepted(cs.last()) {
        accepted_pairs(cs.drop_last()).push(cs.last())
    } else {
        accepted_pairs(cs.drop_last())
    }
}

/// The `<Pair>` candidates: the children of `<FolderPairs>`.
pub open spec fn pair_elements(root: XmlElement) -> Seq<XmlElement> {
    match child(root, "FolderPairs"@) {
        Some(fp) => fp.children@,
        None => Seq::empty(),
    }
}

/// A pair's own filter notes (none without a `<Filter>`).
pub open spec fn local_notes(p: XmlElement) -> Seq<Seq<char>> {
    if child(p, "Filter"@) is Some {
        spec_collect_excludes(child(p, "Filter"@)).1
    } else {
        Seq::empty()
    }
}

pub open spec fn notes_of(ps: Seq<XmlElement>) -> Seq<Seq<char>>
    decreases ps.len(),
{
    if ps.len() == 0 {
        Seq::empty()
    } else {
        notes_of(ps.drop_last()) + local_notes(ps.last())
    }
}

pub open spec fn starts_with_unc(s: Seq<char>) -> bool {
    s.len() >= 2 && s[0] == '\\' && s[1] == '\\'
}

/// The job a pair becomes under the config's global settings: a pair's own
/// `<Synchronize>` / `<Compare>` override the global ones; its `<Filter>`
/// adds to the global excludes (duplicates dropped); a one-way mirror and a
/// network-share root each carry a warning.
pub open spec fn job_is(j: ImportedJob, p: XmlElement, root: XmlElement) -> bool {
    let left = pair_side(p, "Left"@);
    let right = pair_side(p, "Right"@);
    let sync = child(p, "Synchronize"@);
    let g_sync = child(root, "Synchronize"@);
    let two_way = if sync is Some {
        spec_detect_two_way(sync)
    } else {
        spec_detect_two_way(g_sync)
    };
    let recycle = if sync is Some {
        spec_deletion_is_recycle(sync)
    } else {
        spec_deletion_is_recycle(g_sync)
    };
    let verify = if child(p, "Compare"@) is Some {
        spec_compare_is_content(child(p, "Compare"@))
    } else {
        spec_compare_is_content(child(root, "Compare"@))
    };
    let local = if child(p, "Filter"@) is Some {
        spec_collect_excludes(child(p, "Filter"@)).0
    } else {
        Seq::empty()
    };
    let globs = dedup_seq(spec_collect_excludes(child(root, "Filter"@)).0 + local);
    let warnings = (if !two_way {
        seq![mirror_warning()]
    } else {
        Seq::empty()
    }) + (if starts_with_unc(left) || starts_with_unc(right) {
        seq![share_warning()]
    } else {
        Seq::empty()
    });
    &&& j.name@ == spec_derive_name(left, right)
    &&& j.left@ == left
    &&& j.right@ == right
    &&& j.two_way == two_way
    &&& j.use_recycle_bin == recycle
    &&& j.verify_by_hash == verify
    &&& views(j.exclude_globs@) == globs
    &&& views(j.warnings@) == warnings
    &&& match spec_gitignore_hint(globs) {
        Some(h) => j.gitignore_hint matches Some(s) && s@ == h,
        None => j.gitignore_hint is None,
    }
}

fn side_text(p: &XmlElement, tag: &str) -> (r: Vec<char>)
    ensures
        r@ == pair_side(*p, tag@),
{
    match find_child(p, tag) {
        Some(c) => match &c.text {
            Some(t) => trimmed(t.as_str()),
            None => {
                let e: Vec<char> = Vec::new();
                proof {
                    assert(trim(Seq::<char>::empty()) =~= Seq::<char>::empty());
                }
                e
            },
        },
        None => {
            let e: Vec<char> = Vec::new();
            proof {
                assert(trim(Seq::<char>::empty()) =~= Seq::<char>::empty());
            }
            e
        },
    }
}

fn append_all(out: &mut Vec<String>, more: Vec<String>)
    ensures
        views(final(out)@) == views(old(out)@) + views(more@),
{
    let ghost before = views(out@);
    let ghost all = views(more@);
    let mut rest = more;
    let ghost mut k: int = 0;
    proof {
        assert(views(rest@) =~= all.skip(0));
        assert(views(out@) =~= before + all.take(0));
    }
    while rest.len() > 0
        invariant
            0 <= k <= all.len(),
            views(rest@) == all.skip(k),
            views(out@) == before + all.take(k),
        decreases rest@.len(),
    {
        let ghost r0 = rest@;
        proof {
            assert(views(r0).len() == r0.len());
            assert(k < all.len());
            assert(views(r0)[0] == r0[0]@);
            assert(all.skip(k)[0] == all[k]);
        }
        let x = rest.remove(0);
        let ghost o0 = views(out@);
        out.push(x);
        proof {
            assert(views(out@) =~= o0.push(all[k]));
            assert(all.take(k + 1) =~= all.take(k).push(all[k]));
            assert(rest@ == r0.remove(0));
            assert forall|i: int| 0 <= i < views(rest@).len() implies #[trigger] views(rest@)[i] == all.skip(k + 1)[i] by {
                assert(rest@[i] == r0[i + 1]);
                assert(views(r0)[i + 1] == all.skip(k)[i + 1]);
            }
            assert(views(rest@) =~= all.skip(k + 1));
            k = k + 1;
        }
    }
    proof {
        assert(all.skip(k) =~= Seq::<Seq<char>>::empty());
        assert(all.take(k) =~= all);
    }
}

fn clone_strings(v: &Vec<String>) -> (r: Vec<String>)
    ensures
        views(r@) == views(v@),
{
    let mut out: Vec<String> = Vec::new();
    let mut k: usize = 0;
    while k < v.len()
        invariant
            k <= v@.len(),
            out@.len() == k,
            forall|i: int| 0 <= i < k ==> (#[trigger] out@[i])@ == v@[i]@,
        decreases v@.len() - k,
    {
        out.push(v[k].clone());
        k = k + 1;
    }
    proof {
        assert(views(out@) =~= views(v@));
    }
    out
}

/// The job for an accepted pair.
fn import_pair(
    pair: &XmlElement,
    root: &XmlElement,
    left: Vec<char>,
    right: Vec<char>,
    global_verify: bool,
    global_sync: Option<&XmlElement>,
    global_excludes: &Vec<String>,
) -> (r: (ImportedJob, Vec<String>))
    requires
        left@ == pair_side(*pair, "Left"@),
        right@ == pair_side(*pair, "Right"@),
        global_verify == spec_compare_is_content(child(*root, "Compare"@)),
        opt_el(global_sync) == child(*root, "Synchronize"@),
        views(global_excludes@) == spec_collect_excludes(child(*root, "Filter"@)).0,
    ensures
        job_is(r.0, *pair, *root),
        views(r.1@) == local_notes(*pair),
{
    let pair_sync = find_child(pair, "Synchronize");
    let two_way = match pair_sync {
        Some(_) => detect_two_way(pair_sync),
        None => detect_two_way(global_sync),
    };
    let recycle = match pair_sync {
        Some(_) => deletion_is_recycle(pair_sync),
        None => deletion_is_recycle(global_sync),
    };
    let verify = match find_child(pair, "Compare") {
        Some(c) => compare_is_content(Some(c)),
        None => global_verify,
    };
    let mut globs = clone_strings(global_excludes);
    let filter = find_child(pair, "Filter");
    let local_notes_v: Vec<String> = match filter {
        Some(_) => {
            let (local, lnotes) = collect_excludes(filter);
            append_all(&mut globs, local);
            lnotes
        },
        None => {
            proof {
                assert(views(globs@) =~= views(global_excludes@) + Seq::<Seq<char>>::empty());
            }
            let e: Vec<String> = Vec::new();
            proof {
                assert(views(e@) =~= Seq::<Seq<char>>::empty());
            }
            e
        },
    };
    let globs = dedup(globs);
    let mut warnings: Vec<String> = Vec::new();
    if !two_way {
        warnings.push(String::from_str(
            "FreeFileSync had this pair as a one-way mirror (left → right). fast-file-sync currently does two-way sync, which would also propagate deletions back from the right side — review before applying.",
        ));
    }
    let unc = (left.len() >= 2 && left[0] == '\\' && left[1] == '\\') || (right.len() >= 2 && right[0] == '\\'
        && right[1] == '\\');
    if unc {
        warnings.push(String::from_str("This pair targets a network share (UNC path); it must be online to sync."));
    }
    proof {
        let w = (if !two_way {
            seq![mirror_warning()]
        } else {
            Seq::<Seq<char>>::empty()
        }) + (if unc {
            seq![share_warning()]
        } else {
            Seq::<Seq<char>>::empty()
        });
        assert(views(warnings@) =~= w);
    }
    let hint = gitignore_hint(&globs);
    let name = derive_name(&left, &right);
    let job = ImportedJob {
        name,
        left: string_from_chars(&left),
        right: string_from_chars(&right),
        two_way,
        use_recycle_bin: recycle,
        verify_by_hash: verify,
        exclude_globs: globs,
        warnings,
        gitignore_hint: hint,
    };
    (job, local_notes_v)
}

/// What importing a parsed tree gives: an error when the root is not
/// `<FreeFileSync>` or no `<Pair>` has both roots, else one job per accepted
/// pair, in order, with the global and per-pair notes without repeats.
pub open spec fn import_result_is(root: XmlElement, r: Result<FfsImport, String>) -> bool {
    if root.name@ != "FreeFileSync"@ {
        r matches Err(m) && m@ == "this is not a FreeFileSync config (missing <FreeFileSync> root)"@
    } else if accepted_pairs(pair_elements(root)).len() == 0 {
        r matches Err(m) && m@ == "no folder pairs found in this config"@
    } else {
        r matches Ok(imp) && imp.jobs@.len() == accepted_pairs(pair_elements(root)).len() && (forall|i: int|
            0 <= i < imp.jobs@.len() ==> job_is(#[trigger] imp.jobs@[i], accepted_pairs(pair_elements(root))[i], root))
            && views(imp.notes@) == dedup_seq(
            spec_collect_excludes(child(root, "Filter"@)).1 + notes_of(accepted_pairs(pair_elements(root))),
        )
    }
}

/// Import the jobs of a parsed FreeFileSync configuration, or say why it
/// cannot be imported.
pub fn import_root(root: &XmlElement) -> (r: Result<FfsImport, String>)
    ensures
        import_result_is(*root, r),
{
    if !name_is(root, "FreeFileSync") {
        return Err(String::from_str("this is not a FreeFileSync config (missing <FreeFileSync> root)"));
    }
    let global_verify = compare_is_content(find_child(root, "Compare"));
    let global_sync = find_child(root, "Synchronize");
    let (global_excludes, mut notes) = collect_excludes(find_child(root, "Filter"));
    let ghost gnotes = views(notes@);
    let mut jobs: Vec<ImportedJob> = Vec::new();
    let ghost empty_elems = Seq::<XmlElement>::empty();
    match find_child(root, "FolderPairs") {
        Some(pairs) => {
            let mut k: usize = 0;
            proof {
                assert(pairs.children@.take(0) =~= empty_elems);
                assert(views(notes@) =~= gnotes + notes_of(accepted_pairs(pairs.children@.take(0))));
            }
            while k < pairs.children.len()
                invariant
                    k <= pairs.children@.len(),
                    child(*root, "FolderPairs"@) == Some(*pairs),
                    global_verify == spec_compare_is_content(child(*root, "Compare"@)),
                    opt_el(global_sync) == child(*root, "Synchronize"@),
                    views(global_excludes@) == spec_collect_excludes(child(*root, "Filter"@)).0,
                    gnotes == spec_collect_excludes(child(*root, "Filter"@)).1,
                    jobs@.len() == accepted_pairs(pairs.children@.take(k as int)).len(),
                    forall|i: int| 0 <= i < jobs@.len() ==> job_is(#[trigger] jobs@[i], accepted_pairs(pairs.children@.take(k as int))[i], *root),
                    views(notes@) == gnotes + notes_of(accepted_pairs(pairs.children@.take(k as int))),
                decreases pairs.children@.len() - k,
            {
                let pair = &pairs.children[k];
                let ghost prev = accepted_pairs(pairs.children@.take(k as int));
                proof {
                    assert(pairs.children@.take(k + 1).drop_last() =~= pairs.children@.take(k as int));
                    assert(pairs.children@.take(k + 1).last() == *pair);
                }
                if name_is(pair, "Pair") {
                    let left = side_text(pair, "Left");
                    let right = side_text(pair, "Right");
                    if left.len() > 0 && right.len() > 0 {
                        let (job, local) = import_pair(pair, root, left, right, global_verify, global_sync, &global_excludes);
                        let ghost n0 = views(notes@);
                        append_all(&mut notes, local);
                        jobs.push(job);
                        proof {
                            let now = accepted_pairs(pairs.children@.take(k + 1));
                            assert(now == prev.push(*pair));
                            assert forall|i: int| 0 <= i < jobs@.len() implies job_is(#[trigger] jobs@[i], now[i], *root) by {
                                if i < prev.len() {
                                    assert(now[i] == prev[i]);
                                }
                            }
                            assert(now.drop_last() =~= prev);
                            assert(now.last() == *pair);
                            assert(notes_of(now) == notes_of(prev) + local_notes(*pair));
                            assert(views(notes@) =~= gnotes + notes_of(now));
                        }
                    }
                }
                k = k + 1;
            }
            proof {
                assert(pairs.children@.take(pairs.children@.len() as int) =~= pairs.children@);
            }
        },
        None => {
            proof {
                assert(views(notes@) =~= gnotes + notes_of(accepted_pairs(pair_elements(*root))));
            }
        },
    }
    let notes = dedup(notes);
    if jobs.len() == 0 {
        return Err(String::from_str("no folder pairs found in this config"));
    }
    Ok(FfsImport { jobs, notes })
}

/// Parse a FreeFileSync `.ffs_batch` / `.ffs_gui` configuration into
/// importable jobs.
pub fn parse_ffs(xml: &str) -> (r: Result<FfsImport, String>)
    ensures
        match xml_root(xml@) {
            Err(e) => r matches Err(m) && m@ == "not valid XML: "@ + e,
            Ok(root) => import_result_is(root, r),
        },
{
    match parse_xml(xml) {
        Ok(root) => import_root(&root),
        Err(e) => {
            let mut m: Vec<char> = Vec::new();
            push_str(&mut m, "not valid XML: ");
            push_str(&mut m, e.as_str());
            Err(string_from_chars(&m))
        },
    }
}

/// With a `<Changes>` block (and no `<TwoWay>`), the pair is two-way
/// exactly when its left changes point right and its right changes point
/// left. If either side's changes do not point across, the pair is one-way.
/// That covers a mirror, where the right side's changes also point right.
pub proof fn law_changes_two_way(s: XmlElement)
    requires
        child(s, "TwoWay"@) is None,
        child(s, "Changes"@) is Some,
    ensures
        ({
            let ch = child(s, "Changes"@)->0;
            &&& spec_detect_two_way(Some(s)) <==> ((child(ch, "Left"@) matches Some(l) && spec_attrs_point(
                l,
                "right"@,
            )) && (child(ch, "Right"@) matches Some(r) && spec_attrs_point(r, "left"@)))
            &&& (child(ch, "Right"@) matches Some(r) && attr(r, "Create"@) != Some("left"@) && attr(r, "Update"@)
                != Some("left"@) && attr(r, "Delete"@) != Some("left"@)) ==> !spec_detect_two_way(Some(s))
            &&& child(ch, "Right"@) is None ==> !spec_detect_two_way(Some(s))
            &&& (child(ch, "Left"@) matches Some(l) && attr(l, "Create"@) != Some("right"@) && attr(l, "Update"@)
                != Some("right"@) && attr(l, "Delete"@) != Some("right"@)) ==> !spec_detect_two_way(Some(s))
        }),
{
}

} // verus!
