//! Path-keyed maps kept sorted by key (the order in which the engine visits
//! paths), and the sorted union of key sequences.
use crate::keys::{
    key_order, lemma_lt_asymmetric, lemma_lt_irreflexive, lemma_lt_total, lemma_lt_transitive,
    seq_lt, strictly_sorted, KeyOrder,
};
use vstd::prelude::*;

verus! {

/// Sorted, duplicate-free `key -> V` entries.
pub struct KeyMap<V> {
    entries: Vec<(String, V)>,
}

/// Path-keyed metadata snapshots.
pub type EntryMap = KeyMap<crate::model::Meta>;

/// A sorted set of path keys.
pub type KeySet = KeyMap<()>;

pub open spec fn keys_of<V>(s: Seq<(String, V)>) -> Seq<Seq<char>> {
    Seq::new(s.len(), |i: int| s[i].0@)
}

impl<V> KeyMap<V> {
    /// Well-formed: keys strictly increasing.
    pub closed spec fn wf(&self) -> bool {
        strictly_sorted(keys_of(self.entries@))
    }

    /// The keys in increasing order.
    pub closed spec fn key_seq(&self) -> Seq<Seq<char>> {
        keys_of(self.entries@)
    }

    /// The snapshots, aligned with `key_seq`.
    pub closed spec fn value_seq(&self) -> Seq<V> {
        Seq::new(self.entries@.len(), |i: int| self.entries@[i].1)
    }

    /// The map view: every key maps to its snapshot.
    pub closed spec fn map(&self) -> Map<Seq<char>, V> {
        Map::new(
            |k: Seq<char>| self.key_seq().contains(k),
            |k: Seq<char>| self.value_seq()[self.key_seq().index_of(k)],
        )
    }

    /// The view's domain is exactly the key sequence, each key maps to the
    /// snapshot at its position, and the keys are strictly increasing.
    pub proof fn lemma_view(&self)
        requires
            self.wf(),
        ensures
            strictly_sorted(self.key_seq()),
            self.key_seq().len() == self.value_seq().len(),
            forall|k: Seq<char>| #[trigger] self.map().contains_key(k) <==> self.key_seq().contains(k),
            forall|i: int|
                0 <= i < self.key_seq().len() ==> #[trigger] self.map()[self.key_seq()[i]] == self.value_seq()[i],
            self.map().dom().finite(),
    {
        let ks = self.key_seq();
        assert forall|i: int| 0 <= i < ks.len() implies #[trigger] self.map()[ks[i]] == self.value_seq()[i] by {
            assert(ks.contains(ks[i]));
            let j = ks.index_of(ks[i]);
            assert(ks[j] == ks[i]);
            if j != i {
                crate::keys::lemma_sorted_distinct(ks, i, j);
            }
        }
        assert(self.map().dom() =~= ks.to_set());
        vstd::seq_lib::seq_to_set_is_finite(ks);
    }

    /// A well-formed map holds as many keys as its key sequence.
    pub proof fn lemma_len(&self)
        requires
            self.wf(),
        ensures
            self.map().dom().len() == self.key_seq().len(),
    {
        self.lemma_view();
        let ks = self.key_seq();
        assert(ks.no_duplicates()) by {
            assert forall|i: int, j: int| 0 <= i < ks.len() && 0 <= j < ks.len() && i != j implies ks[i] != ks[j] by {
                crate::keys::lemma_sorted_distinct(ks, i, j);
            }
        }
        ks.unique_seq_to_set();
        assert(self.map().dom() =~= ks.to_set());
    }

    pub fn new() -> (r: KeyMap<V>)
        ensures
            r.wf(),
            r.key_seq().len() == 0,
            r.map() == Map::<Seq<char>, V>::empty(),
    {
        let r = KeyMap { entries: Vec::new() };
        assert(r.map() =~= Map::<Seq<char>, V>::empty());
        r
    }

    pub fn len(&self) -> (r: usize)
        ensures
            r == self.key_seq().len(),
    {
        self.entries.len()
    }

    pub fn key_at(&self, i: usize) -> (r: &String)
        requires
            i < self.key_seq().len(),
        ensures
            r@ == self.key_seq()[i as int],
    {
        &self.entries[i].0
    }

    pub fn value_at(&self, i: usize) -> (r: &V)
        requires
            i < self.key_seq().len(),
        ensures
            *r == self.value_seq()[i as int],
    {
        &self.entries[i].1
    }

    /// Build from entries already in strictly increasing key order; `None`
    /// when they are not.
    pub fn from_sorted(v: Vec<(String, V)>) -> (r: Option<KeyMap<V>>)
        ensures
            r is Some <==> strictly_sorted(keys_of(v@)),
            r matches Some(m) ==> m.wf(),
            r matches Some(m) ==> m.key_seq() == keys_of(v@) && m.value_seq() == Seq::new(
                v@.len(),
                |i: int| v@[i].1,
            ),
    {
        let n = v.len();
        let mut i: usize = 1;
        if n > 1 {
            while i < n
                invariant
                    1 <= i <= n,
                    n == v@.len(),
                    forall|k: int| 0 <= k < i - 1 ==> seq_lt(#[trigger] keys_of(v@)[k], keys_of(v@)[k + 1]),
                decreases n - i,
            {
                if !crate::keys::key_lt(&v[i - 1].0, &v[i].0) {
                    proof {
                        assert(!seq_lt(keys_of(v@)[i - 1], keys_of(v@)[i as int]));
                    }
                    return None;
                }
                i = i + 1;
            }
            proof {
                crate::keys::lemma_adjacent_sorted(keys_of(v@));
            }
        }
        let r = KeyMap { entries: v };
        proof {
            assert(r.value_seq() =~= Seq::new(r.entries@.len(), |i: int| r.entries@[i].1));
        }
        Some(r)
    }

    /// The keys, in increasing order.
    pub fn keys(&self) -> (r: Vec<String>)
        ensures
            r@.len() == self.key_seq().len(),
            forall|i: int| 0 <= i < r@.len() ==> #[trigger] r@[i]@ == self.key_seq()[i],
    {
        let mut out: Vec<String> = Vec::new();
        let mut i: usize = 0;
        while i < self.entries.len()
            invariant
                i <= self.entries@.len(),
                out@.len() == i,
                forall|j: int| 0 <= j < i ==> #[trigger] out@[j]@ == self.key_seq()[j],
            decreases self.entries@.len() - i,
        {
            out.push(self.entries[i].0.clone());
            i = i + 1;
        }
        out
    }

    /// Position of the first key not below `key`, and whether it equals `key`.
    fn locate(&self, key: &str) -> (r: (usize, bool))
        requires
            self.wf(),
        ensures
            r.0 <= self.key_seq().len(),
            forall|i: int| 0 <= i < r.0 ==> seq_lt(#[trigger] self.key_seq()[i], key@),
            forall|i: int| r.0 <= i < self.key_seq().len() ==> !seq_lt(#[trigger] self.key_seq()[i], key@),
            r.1 <==> (r.0 < self.key_seq().len() && self.key_seq()[r.0 as int] == key@),
            r.1 <==> self.key_seq().contains(key@),
    {
        let ghost ks = self.key_seq();
        let mut lo: usize = 0;
        let mut hi: usize = self.entries.len();
        while lo < hi
            invariant
                lo <= hi <= ks.len(),
                ks == self.key_seq(),
                ks.len() == self.entries@.len(),
                strictly_sorted(ks),
                forall|i: int| 0 <= i < lo ==> seq_lt(#[trigger] ks[i], key@),
                forall|i: int| hi <= i < ks.len() ==> !seq_lt(#[trigger] ks[i], key@),
            decreases hi - lo,
        {
            let mid = lo + (hi - lo) / 2;
            match key_order(&self.entries[mid].0, key) {
                KeyOrder::Less => {
                    proof {
                        assert forall|i: int| 0 <= i <= mid implies seq_lt(#[trigger] ks[i], key@) by {
                            if i < mid {
                                assert(seq_lt(ks[i], ks[mid as int]));
                                lemma_lt_transitive(ks[i], ks[mid as int], key@);
                            }
                        }
                    }
                    lo = mid + 1;
                },
                _ => {
                    proof {
                        assert(!seq_lt(ks[mid as int], key@)) by {
                            lemma_lt_irreflexive(key@);
                            lemma_lt_asymmetric(ks[mid as int], key@);
                        }
                        assert forall|i: int| mid <= i < ks.len() implies !seq_lt(#[trigger] ks[i], key@) by {
                            if i > mid {
                                assert(seq_lt(ks[mid as int], ks[i]));
                                if seq_lt(ks[i], key@) {
                                    lemma_lt_transitive(ks[mid as int], ks[i], key@);
                                }
                            }
                        }
                    }
                    hi = mid;
                },
            }
        }
        let found = if lo < self.entries.len() {
            match key_order(&self.entries[lo].0, key) {
                KeyOrder::Equal => true,
                _ => false,
            }
        } else {
            false
        };
        proof {
            if ks.contains(key@) {
                let j = ks.index_of(key@);
                lemma_lt_irreflexive(key@);
                if j < lo as int {
                    assert(seq_lt(ks[j], key@));
                }
                if j > lo as int {
                    lemma_lt_total(ks[lo as int], key@);
                    assert(seq_lt(ks[lo as int], ks[j]));
                    if ks[lo as int] != key@ {
                        lemma_lt_asymmetric(ks[lo as int], key@);
                    }
                }
            }
            if found {
                assert(ks[lo as int] == key@);
            }
        }
        (lo, found)
    }

    /// The snapshot recorded for `key`, if any.
    pub fn get(&self, key: &str) -> (r: Option<&V>)
        requires
            self.wf(),
        ensures
            r is Some <==> self.map().contains_key(key@),
            r matches Some(m) ==> *m == self.map()[key@],
    {
        proof {
            self.lemma_view();
        }
        let (pos, found) = self.locate(key);
        if found {
            Some(&self.entries[pos].1)
        } else {
            None
        }
    }

    /// Record `meta` for `key`, replacing any previous snapshot.
    pub fn insert(&mut self, key: String, meta: V)
        requires
            old(self).wf(),
        ensures
            final(self).wf(),
            final(self).map() == old(self).map().insert(key@, meta),
    {
        proof {
            self.lemma_view();
        }
        let ghost k = key@;
        let (pos, found) = self.locate(&key);
        let ghost old_keys = self.key_seq();
        let ghost old_vals = self.value_seq();
        let ghost old_map = self.map();
        if found {
            let mut entries: Vec<(String, V)> = Vec::new();
            std::mem::swap(&mut entries, &mut self.entries);
            entries.set(pos, (key, meta));
            proof {
                assert(keys_of(entries@) =~= old_keys);
            }
            self.entries = entries;
        } else {
            let mut entries: Vec<(String, V)> = Vec::new();
            std::mem::swap(&mut entries, &mut self.entries);
            entries.insert(pos, (key, meta));
            proof {
                let nk = keys_of(entries@);
                assert(nk =~= old_keys.insert(pos as int, k));
                assert forall|i: int, j: int| 0 <= i < j < nk.len() implies seq_lt(#[trigger] nk[i], #[trigger] nk[j]) by {
                    if j < pos {
                    } else if i < pos && j == pos {
                    } else if i < pos && j > pos {
                        assert(nk[j] == old_keys[j - 1]);
                        assert(!seq_lt(old_keys[j - 1], k));
                        lemma_lt_total(old_keys[j - 1], k);
                        if old_keys[j - 1] == k {
                            assert(old_keys.contains(k));
                        }
                        lemma_lt_transitive(nk[i], k, nk[j]);
                    } else if i == pos {
                        assert(nk[j] == old_keys[j - 1]);
                        assert(!seq_lt(old_keys[j - 1], k));
                        lemma_lt_total(old_keys[j - 1], k);
                        if old_keys[j - 1] == k {
                            assert(old_keys.contains(k));
                        }
                    } else {
                        assert(nk[i] == old_keys[i - 1]);
                        assert(nk[j] == old_keys[j - 1]);
                    }
                }
            }
            self.entries = entries;
        }
        proof {
            self.lemma_view();
            let nm = self.map();
            let want = old_map.insert(k, meta);
            let nks = self.key_seq();
            assert forall|x: Seq<char>| nm.contains_key(x) <==> want.contains_key(x) by {
                if found {
                } else {
                    if nks.contains(x) {
                        let j = nks.index_of(x);
                        if j < pos {
                            assert(old_keys[j] == x);
                        } else if j > pos {
                            assert(old_keys[j - 1] == x);
                        }
                    }
                    if old_keys.contains(x) {
                        let j = old_keys.index_of(x);
                        if j < pos {
                            assert(nks[j] == x);
                        } else {
                            assert(nks[j + 1] == x);
                        }
                    }
                    assert(nks[pos as int] == k);
                }
            }
            assert forall|x: Seq<char>| nm.contains_key(x) implies nm[x] == want[x] by {
                let j = nks.index_of(x);
                assert(nm[nks[j]] == self.value_seq()[j]);
                if x == k {
                    assert(nks[pos as int] == k);
                    if j != pos as int {
                        crate::keys::lemma_sorted_distinct(nks, j, pos as int);
                    }
                } else if found {
                    assert(old_keys[j] == x);
                    assert(old_map[old_keys[j]] == old_vals[j]);
                } else if j < pos {
                    assert(old_keys[j] == x);
                    assert(old_map[old_keys[j]] == old_vals[j]);
                } else {
                    assert(j > pos);
                    assert(old_keys[j - 1] == x);
                    assert(old_map[old_keys[j - 1]] == old_vals[j - 1]);
                }
            }
            assert(nm =~= want);
        }
    }

    /// Forget `key`.
    pub fn remove(&mut self, key: &str)
        requires
            old(self).wf(),
        ensures
            final(self).wf(),
            final(self).map() == old(self).map().remove(key@),
    {
        proof {
            self.lemma_view();
        }
        let ghost k = key@;
        let (pos, found) = self.locate(key);
        let ghost old_keys = self.key_seq();
        let ghost old_vals = self.value_seq();
        let ghost old_map = self.map();
        if found {
            let mut entries: Vec<(String, V)> = Vec::new();
            std::mem::swap(&mut entries, &mut self.entries);
            let _ = entries.remove(pos);
            proof {
                let nk = keys_of(entries@);
                assert(nk =~= old_keys.remove(pos as int));
                assert forall|i: int, j: int| 0 <= i < j < nk.len() implies seq_lt(#[trigger] nk[i], #[trigger] nk[j]) by {
                    if j < pos {
                    } else if i < pos {
                        assert(nk[j] == old_keys[j + 1]);
                    } else {
                        assert(nk[i] == old_keys[i + 1]);
                        assert(nk[j] == old_keys[j + 1]);
                    }
                }
            }
            self.entries = entries;
            proof {
                self.lemma_view();
                let nm = self.map();
                let want = old_map.remove(k);
                let nks = self.key_seq();
                assert forall|x: Seq<char>| nm.contains_key(x) <==> want.contains_key(x) by {
                    if nks.contains(x) {
                        let j = nks.index_of(x);
                        if j < pos {
                            assert(old_keys[j] == x);
                            if x == k {
                                crate::keys::lemma_sorted_distinct(old_keys, j, pos as int);
                            }
                        } else {
                            assert(old_keys[j + 1] == x);
                            if x == k {
                                crate::keys::lemma_sorted_distinct(old_keys, j + 1, pos as int);
                            }
                        }
                    }
                    if old_keys.contains(x) && x != k {
                        let j = old_keys.index_of(x);
                        if j < pos {
                            assert(nks[j] == x);
                        } else {
                            assert(j != pos);
                            assert(nks[j - 1] == x);
                        }
                    }
                }
                assert forall|x: Seq<char>| nm.contains_key(x) implies nm[x] == want[x] by {
                    let j = nks.index_of(x);
                    assert(nm[nks[j]] == self.value_seq()[j]);
                    if j < pos {
                        assert(old_keys[j] == x);
                        assert(old_map[old_keys[j]] == old_vals[j]);
                    } else {
                        assert(old_keys[j + 1] == x);
                        assert(old_map[old_keys[j + 1]] == old_vals[j + 1]);
                    }
                }
                assert(nm =~= want);
            }
        } else {
            proof {
                assert(old_map.remove(k) =~= old_map);
            }
        }
    }
}

/// The views of a vector of strings.
pub open spec fn views(v: Seq<String>) -> Seq<Seq<char>> {
    Seq::new(v.len(), |i: int| v[i]@)
}

/// Sorted union of two strictly increasing key sequences, without duplicates.
pub fn sorted_union(x: &Vec<String>, y: &Vec<String>) -> (r: Vec<String>)
    requires
        strictly_sorted(views(x@)),
        strictly_sorted(views(y@)),
    ensures
        strictly_sorted(views(r@)),
        forall|k: Seq<char>| #[trigger] views(r@).contains(k) <==> (views(x@).contains(k) || views(y@).contains(k)),
{
    let ghost vx = views(x@);
    let ghost vy = views(y@);
    let mut out: Vec<String> = Vec::new();
    let mut i: usize = 0;
    let mut j: usize = 0;
    while i < x.len() || j < y.len()
        invariant
            i <= x@.len(),
            j <= y@.len(),
            vx == views(x@),
            vy == views(y@),
            strictly_sorted(vx),
            strictly_sorted(vy),
            strictly_sorted(views(out@)),
            forall|k: Seq<char>| #[trigger] views(out@).contains(k) <==> (vx.take(i as int).contains(k) || vy.take(j as int).contains(k)),
            // everything emitted is below every pending key
            forall|a: int, b: int| 0 <= a < out@.len() && i <= b < vx.len() ==> seq_lt(#[trigger] views(out@)[a], #[trigger] vx[b]),
            forall|a: int, b: int| 0 <= a < out@.len() && j <= b < vy.len() ==> seq_lt(#[trigger] views(out@)[a], #[trigger] vy[b]),
        decreases x@.len() + y@.len() - i - j,
    {
        let ghost before = views(out@);
        let ghost (oi, oj) = (i, j);
        let take_x: bool;
        let take_y: bool;
        if i < x.len() && j < y.len() {
            match key_order(&x[i], &y[j]) {
                KeyOrder::Less => { take_x = true; take_y = false; },
                KeyOrder::Equal => { take_x = true; take_y = true; },
                KeyOrder::Greater => { take_x = false; take_y = true; },
            }
        } else if i < x.len() {
            take_x = true;
            take_y = false;
        } else {
            take_x = false;
            take_y = true;
        }
        let ghost picked: Seq<char> = if take_x { vx[i as int] } else { vy[j as int] };
        if take_x {
            out.push(x[i].clone());
        } else {
            out.push(y[j].clone());
        }
        if take_x {
            i = i + 1;
        }
        if take_y {
            j = j + 1;
        }
        proof {
            let now = views(out@);
            assert(now =~= before.push(picked));
            // picked is below every remaining key on both sides
            assert forall|b: int| i <= b < vx.len() implies seq_lt(picked, #[trigger] vx[b]) by {
                if take_x {
                    assert(seq_lt(vx[oi as int], vx[b]));
                } else {
                    // picked = vy[oj] < vx[oi] <= vx[b]
                    assert(seq_lt(vy[oj as int], vx[oi as int]));
                    if b > oi {
                        assert(seq_lt(vx[oi as int], vx[b]));
                        lemma_lt_transitive(vy[oj as int], vx[oi as int], vx[b]);
                    }
                }
            }
            assert forall|b: int| j <= b < vy.len() implies seq_lt(picked, #[trigger] vy[b]) by {
                if take_y {
                    assert(picked == vy[oj as int]);
                    assert(seq_lt(vy[oj as int], vy[b]));
                } else {
                    assert(seq_lt(vx[oi as int], vy[oj as int]));
                    if b > oj {
                        assert(seq_lt(vy[oj as int], vy[b]));
                        lemma_lt_transitive(vx[oi as int], vy[oj as int], vy[b]);
                    }
                }
            }
            assert forall|a: int, b: int| 0 <= a < b < now.len() implies seq_lt(#[trigger] now[a], #[trigger] now[b]) by {
                if b == now.len() - 1 {
                    assert(now[b] == picked);
                    assert(now[a] == before[a]);
                    if take_x {
                        assert(seq_lt(before[a], vx[oi as int]));
                    } else {
                        assert(seq_lt(before[a], vy[oj as int]));
                    }
                } else {
                    assert(now[a] == before[a] && now[b] == before[b]);
                }
            }
            assert forall|a: int, b: int| 0 <= a < now.len() && i <= b < vx.len() implies seq_lt(#[trigger] now[a], #[trigger] vx[b]) by {
                if a == now.len() - 1 {
                } else {
                    assert(now[a] == before[a]);
                    if b >= oi { } 
                }
            }
            assert forall|a: int, b: int| 0 <= a < now.len() && j <= b < vy.len() implies seq_lt(#[trigger] now[a], #[trigger] vy[b]) by {
                if a == now.len() - 1 {
                } else {
                    assert(now[a] == before[a]);
                }
            }
            assert forall|k: Seq<char>| #[trigger] now.contains(k) <==> (vx.take(i as int).contains(k) || vy.take(j as int).contains(k)) by {
                if now.contains(k) {
                    let p = now.index_of(k);
                    if p < before.len() {
                        assert(before.contains(k));
                        if vx.take(oi as int).contains(k) {
                            let q = vx.take(oi as int).index_of(k);
                            assert(vx.take(i as int)[q] == k);
                        } else {
                            let q = vy.take(oj as int).index_of(k);
                            assert(vy.take(j as int)[q] == k);
                        }
                    } else {
                        if take_x {
                            assert(vx.take(i as int)[oi as int] == k);
                        } else {
                            assert(vy.take(j as int)[oj as int] == k);
                        }
                    }
                }
                if vx.take(i as int).contains(k) {
                    let q = vx.take(i as int).index_of(k);
                    if q < oi {
                        assert(vx.take(oi as int)[q] == k);
                        assert(before.contains(k));
                        let p = before.index_of(k);
                        assert(now[p] == k);
                    } else {
                        assert(now[now.len() - 1] == picked);
                        if !take_x {
                            assert(false);
                        }
                    }
                }
                if vy.take(j as int).contains(k) {
                    let q = vy.take(j as int).index_of(k);
                    if q < oj {
                        assert(vy.take(oj as int)[q] == k);
                        assert(before.contains(k));
                        let p = before.index_of(k);
                        assert(now[p] == k);
                    } else {
                        assert(now[now.len() - 1] == picked);
                    }
                }
            }
        }
    }
    proof {
        assert(vx.take(i as int) =~= vx);
        assert(vy.take(j as int) =~= vy);
    }
    out
}

} // verus!
