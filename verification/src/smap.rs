//! A string-keyed map stored as a vector of pairs kept strictly sorted by the
//! lexicographic order of the keys. It plays the role an ordered tree map
//! plays elsewhere: deterministic iteration order and unique keys, with the
//! order available to proofs.

use vstd::prelude::*;

verus! {

use crate::strutil::{
    seq_char_lt, str_eq, string_to_chars, chars_lt, lemma_seq_char_lt_trichotomy,
    lemma_seq_char_lt_transitive,
};

pub struct StrMap<V> {
    pub pairs: Vec<(String, V)>,
}

/// True when the keys of `s` are strictly increasing.
pub open spec fn pairs_sorted<V>(s: Seq<(Seq<char>, V)>) -> bool {
    forall|i: int, j: int|
        0 <= i < j < s.len() ==> seq_char_lt(#[trigger] s[i].0, #[trigger] s[j].0)
}

/// True when some pair in `s` has key `k`.
pub open spec fn pairs_contain<V>(s: Seq<(Seq<char>, V)>, k: Seq<char>) -> bool {
    exists|i: int| 0 <= i < s.len() && (#[trigger] s[i]).0 == k
}

/// Index of the pair with key `k`, when one exists.
pub open spec fn pair_index_of<V>(s: Seq<(Seq<char>, V)>, k: Seq<char>) -> int {
    choose|i: int| 0 <= i < s.len() && (#[trigger] s[i]).0 == k
}

impl<V> StrMap<V> {
    /// The pairs, with keys abstracted to character sequences.
    pub open spec fn pairs_view(self) -> Seq<(Seq<char>, V)> {
        self.pairs@.map_values(|p: (String, V)| (p.0@, p.1))
    }

    /// Well-formedness: keys strictly sorted, hence unique.
    pub open spec fn wf(self) -> bool {
        pairs_sorted(self.pairs_view())
    }

    /// The abstract map this vector of pairs stands for.
    pub open spec fn as_map(self) -> Map<Seq<char>, V> {
        Map::new(
            |k: Seq<char>| pairs_contain(self.pairs_view(), k),
            |k: Seq<char>| self.pairs_view()[pair_index_of(self.pairs_view(), k)].1,
        )
    }

    pub open spec fn spec_len(self) -> nat {
        self.pairs_view().len()
    }

    /// Sorted keys are unique.
    pub proof fn lemma_unique_keys(self)
        requires
            self.wf(),
        ensures
            forall|i: int, j: int|
                0 <= i < self.pairs_view().len() && 0 <= j < self.pairs_view().len() && i != j
                    ==> (#[trigger] self.pairs_view()[i]).0 != (#[trigger] self.pairs_view()[j]).0,
    {
        let s = self.pairs_view();
        assert forall|i: int, j: int|
            0 <= i < s.len() && 0 <= j < s.len() && i != j implies (#[trigger] s[i]).0 != (
        #[trigger] s[j]).0 by {
            if i < j {
                lemma_seq_char_lt_trichotomy(s[i].0, s[j].0);
            } else {
                lemma_seq_char_lt_trichotomy(s[j].0, s[i].0);
            }
        }
    }

    /// Membership in the abstract map follows each pair in the vector.
    pub proof fn lemma_as_map_at(self, i: int)
        requires
            self.wf(),
            0 <= i < self.pairs_view().len(),
        ensures
            self.as_map().contains_key(self.pairs_view()[i].0),
            self.as_map()[self.pairs_view()[i].0] == self.pairs_view()[i].1,
    {
        let s = self.pairs_view();
        assert(pairs_contain(s, s[i].0));
        self.lemma_unique_keys();
        let j = pair_index_of(s, s[i].0);
        assert(s[j].0 == s[i].0);
        assert(j == i);
    }

    pub fn new() -> (r: Self)
        ensures
            r.wf(),
            r.pairs_view() =~= Seq::<(Seq<char>, V)>::empty(),
            r.as_map() =~= Map::<Seq<char>, V>::empty(),
    {
        let r = StrMap { pairs: Vec::new() };
        proof {
            assert(r.pairs_view() =~= Seq::<(Seq<char>, V)>::empty());
            assert(r.as_map() =~= Map::<Seq<char>, V>::empty());
        }
        r
    }

    pub fn len(&self) -> (r: usize)
        ensures
            r == self.spec_len(),
    {
        self.pairs.len()
    }

    pub fn is_empty(&self) -> (r: bool)
        ensures
            r == (self.spec_len() == 0),
    {
        self.pairs.len() == 0
    }

    /// The key of the pair at position `i`.
    pub fn key_at(&self, i: usize) -> (r: &String)
        requires
            i < self.spec_len(),
        ensures
            r@ == self.pairs_view()[i as int].0,
    {
        &self.pairs[i].0
    }

    /// The value of the pair at position `i`.
    pub fn val_at(&self, i: usize) -> (r: &V)
        requires
            i < self.spec_len(),
        ensures
            *r == self.pairs_view()[i as int].1,
    {
        &self.pairs[i].1
    }

    /// Position of `k` in the vector, if present.
    fn find(&self, k: &str) -> (r: Option<usize>)
        requires
            self.wf(),
        ensures
            match r {
                Some(i) => i < self.spec_len() && self.pairs_view()[i as int].0 == k@,
                None => !pairs_contain(self.pairs_view(), k@),
            },
    {
        let mut i: usize = 0;
        let n = self.pairs.len();
        while i < n
            invariant
                n == self.spec_len(),
                i <= n,
                forall|j: int| 0 <= j < i ==> (#[trigger] self.pairs_view()[j]).0 != k@,
            decreases n - i,
        {
            if str_eq(self.pairs[i].0.as_str(), k) {
                assert(self.pairs_view()[i as int].0 == k@);
                return Some(i);
            }
            i = i + 1;
        }
        None
    }

    pub fn contains_key(&self, k: &str) -> (r: bool)
        requires
            self.wf(),
        ensures
            r == self.as_map().contains_key(k@),
    {
        match self.find(k) {
            Some(i) => {
                proof {
                    self.lemma_as_map_at(i as int);
                }
                true
            },
            None => false,
        }
    }

    pub fn get(&self, k: &str) -> (r: Option<&V>)
        requires
            self.wf(),
        ensures
            match r {
                Some(v) => self.as_map().contains_key(k@) && *v == self.as_map()[k@],
                None => !self.as_map().contains_key(k@),
            },
    {
        match self.find(k) {
            Some(i) => {
                proof {
                    self.lemma_as_map_at(i as int);
                }
                Some(&self.pairs[i].1)
            },
            None => None,
        }
    }

    /// Insert `v` under `k`, replacing any earlier value.
    pub fn insert(&mut self, k: String, v: V)
        requires
            old(self).wf(),
        ensures
            final(self).wf(),
            final(self).as_map() =~= old(self).as_map().insert(k@, v),
            final(self).spec_len() <= old(self).spec_len() + 1,
            old(self).spec_len() <= final(self).spec_len(),
            (forall|i: int|
                0 <= i < old(self).pairs_view().len() ==> seq_char_lt(
                    (#[trigger] old(self).pairs_view()[i]).0,
                    k@,
                )) ==> final(self).pairs_view() =~= old(self).pairs_view().push((k@, v)),
            !old(self).as_map().contains_key(k@) ==> final(self).spec_len() == old(self).spec_len()
                + 1,
    {
        let kc = string_to_chars(k.as_str());
        let idx = self.insert_pos(&kc);
        let ghost olds = self.pairs_view();
        if idx < self.pairs.len() && str_eq(self.pairs[idx].0.as_str(), k.as_str()) {
            // replace in place
            let mut pair = self.pairs.remove(idx);
            pair.1 = v;
            self.pairs.insert(idx, pair);
            proof {
                lemma_seq_char_lt_trichotomy(k@, k@);
                assert(pairs_contain(olds, k@));
                let news = self.pairs_view();
                assert(news =~= olds.update(idx as int, (k@, pair.1)));
                assert forall|i: int, j: int| 0 <= i < j < news.len() implies seq_char_lt(
                    (#[trigger] news[i]).0,
                    (#[trigger] news[j]).0,
                ) by {
                    assert(seq_char_lt(olds[i].0, olds[j].0));
                }
                self.view_insert_helper(old(self), k@, v, idx as int, true);
            }
        } else {
            self.pairs.insert(idx, (k, v));
            proof {
                let news = self.pairs_view();
                assert(news =~= olds.insert(idx as int, (k@, v)));
                if idx < olds.len() {
                    lemma_seq_char_lt_trichotomy(olds[idx as int].0, k@);
                    assert(seq_char_lt(k@, olds[idx as int].0));
                }
                assert forall|i: int, j: int| 0 <= i < j < news.len() implies seq_char_lt(
                    (#[trigger] news[i]).0,
                    (#[trigger] news[j]).0,
                ) by {
                    if i < idx && j > idx {
                        assert(seq_char_lt(olds[i].0, olds[j - 1].0));
                    } else if j == idx {
                        assert(seq_char_lt(olds[i].0, k@));
                    } else if i == idx {
                        // the new key is below every key from the old position on
                        if j > idx + 1 {
                            lemma_seq_char_lt_transitive(k@, olds[idx as int].0, olds[j - 1].0);
                        }
                    } else if i > idx {
                        assert(seq_char_lt(olds[i - 1].0, olds[j - 1].0));
                    } else {
                        assert(seq_char_lt(olds[i].0, olds[j].0));
                    }
                }
                assert forall|t: int| 0 <= t < olds.len() implies (#[trigger] olds[t]).0 != k@ by {
                    if t < idx {
                        lemma_seq_char_lt_trichotomy(olds[t].0, k@);
                    } else {
                        if t > idx {
                            lemma_seq_char_lt_transitive(k@, olds[idx as int].0, olds[t].0);
                        }
                        lemma_seq_char_lt_trichotomy(k@, olds[t].0);
                    }
                }
                self.view_insert_helper(old(self), k@, v, idx as int, false);
            }
        }
    }

    /// First position whose key is not below `kc`.
    fn insert_pos(&self, kc: &Vec<char>) -> (r: usize)
        requires
            self.wf(),
        ensures
            r <= self.spec_len(),
            forall|j: int| 0 <= j < r ==> seq_char_lt((#[trigger] self.pairs_view()[j]).0, kc@),
            r < self.spec_len() ==> !seq_char_lt(self.pairs_view()[r as int].0, kc@),
    {
        let mut idx: usize = 0;
        let n = self.pairs.len();
        loop
            invariant
                self.wf(),
                n == self.spec_len(),
                idx <= n,
                forall|j: int|
                    0 <= j < idx ==> seq_char_lt((#[trigger] self.pairs_view()[j]).0, kc@),
            decreases n - idx,
        {
            if idx >= n {
                return idx;
            }
            let pc = string_to_chars(self.pairs[idx].0.as_str());
            if !chars_lt(&pc, kc) {
                return idx;
            }
            idx = idx + 1;
        }
    }

    /// Relates the updated vector to a map-level insert.
    proof fn view_insert_helper(self, prev: &Self, k: Seq<char>, v: V, idx: int, replaced: bool)
        requires
            prev.wf(),
            self.wf(),
            0 <= idx,
            replaced ==> idx < prev.pairs_view().len() && prev.pairs_view()[idx].0 == k
                && self.pairs_view() =~= prev.pairs_view().update(idx, (k, v)),
            !replaced ==> idx <= prev.pairs_view().len() && self.pairs_view()
                =~= prev.pairs_view().insert(idx, (k, v)) && !pairs_contain(prev.pairs_view(), k),
        ensures
            self.as_map() =~= prev.as_map().insert(k, v),
    {
        let olds = prev.pairs_view();
        let news = self.pairs_view();
        prev.lemma_unique_keys();
        self.lemma_unique_keys();
        assert forall|key: Seq<char>| #[trigger] self.as_map().contains_key(key) implies prev
            .as_map().insert(k, v).contains_key(key) by {
            let i = pair_index_of(news, key);
            if news[i].0 == k {
            } else {
                if replaced {
                    assert(olds[i].0 == key);
                } else {
                    if i < idx {
                        assert(olds[i].0 == key);
                    } else {
                        assert(olds[i - 1].0 == key);
                    }
                }
            }
        }
        assert forall|key: Seq<char>| #[trigger] prev.as_map().insert(k, v).contains_key(key)
            implies self.as_map().contains_key(key) by {
            if key == k {
                if replaced {
                    assert(news[idx].0 == k);
                } else {
                    assert(news[idx].0 == k);
                }
            } else {
                let i = pair_index_of(olds, key);
                if replaced {
                    assert(news[i].0 == key);
                } else {
                    if i < idx {
                        assert(news[i].0 == key);
                    } else {
                        assert(news[i + 1].0 == key);
                    }
                }
            }
        }
        assert forall|key: Seq<char>|
            self.as_map().contains_key(key) && prev.as_map().insert(k, v).contains_key(key)
                implies #[trigger] self.as_map()[key] == prev.as_map().insert(k, v)[key] by {
            let i = pair_index_of(news, key);
            assert(0 <= i < news.len() && news[i].0 == key);
            if key == k {
                assert(news[idx].0 == k);
                assert(i == idx);
            } else {
                let j = pair_index_of(olds, key);
                assert(0 <= j < olds.len() && olds[j].0 == key);
                if replaced {
                    assert(news[j].0 == key);
                    assert(i == j);
                } else {
                    if j < idx {
                        assert(news[j].0 == key);
                        assert(i == j);
                    } else {
                        assert(news[j + 1].0 == key);
                        assert(i == j + 1);
                    }
                }
            }
        }
    }

    /// Remove the entry under `k`, if any.
    pub fn remove(&mut self, k: &str)
        requires
            old(self).wf(),
        ensures
            final(self).wf(),
            final(self).as_map() =~= old(self).as_map().remove(k@),
            final(self).spec_len() <= old(self).spec_len(),
    {
        let ghost olds = self.pairs_view();
        match self.find(k) {
            Some(i) => {
                proof {
                    self.lemma_unique_keys();
                }
                self.pairs.remove(i);
                proof {
                    let news = self.pairs_view();
                    assert(news =~= olds.remove(i as int));
                    assert forall|a: int, b: int| 0 <= a < b < news.len() implies seq_char_lt(
                        (#[trigger] news[a]).0,
                        (#[trigger] news[b]).0,
                    ) by {
                        let oa = if a < i as int { a } else { a + 1 };
                        let ob = if b < i as int { b } else { b + 1 };
                        assert(seq_char_lt(olds[oa].0, olds[ob].0));
                    }
                    self.view_remove_helper(old(self), k@, i as int);
                }
            },
            None => {
                proof {
                    assert forall|key: Seq<char>| #[trigger] self.as_map().contains_key(key)
                        implies old(self).as_map().remove(k@).contains_key(key) by {
                        assert(pairs_contain(olds, key));
                        assert(key != k@);
                    }
                    assert(self.as_map() =~= old(self).as_map().remove(k@));
                }
            },
        }
    }

    /// Relates the shortened vector to a map-level remove.
    proof fn view_remove_helper(self, prev: &Self, k: Seq<char>, idx: int)
        requires
            prev.wf(),
            self.wf(),
            0 <= idx < prev.pairs_view().len(),
            prev.pairs_view()[idx].0 == k,
            self.pairs_view() =~= prev.pairs_view().remove(idx),
        ensures
            self.as_map() =~= prev.as_map().remove(k),
    {
        let olds = prev.pairs_view();
        let news = self.pairs_view();
        prev.lemma_unique_keys();
        self.lemma_unique_keys();
        assert forall|key: Seq<char>| #[trigger] self.as_map().contains_key(key) implies prev
            .as_map().remove(k).contains_key(key) by {
            let i = pair_index_of(news, key);
            let oi = if i < idx { i } else { i + 1 };
            assert(olds[oi].0 == key);
            assert(oi != idx);
        }
        assert forall|key: Seq<char>| #[trigger] prev.as_map().remove(k).contains_key(key)
            implies self.as_map().contains_key(key) by {
            let j = pair_index_of(olds, key);
            assert(j != idx);
            if j < idx {
                assert(news[j].0 == key);
            } else {
                assert(news[j - 1].0 == key);
            }
        }
        assert forall|key: Seq<char>|
            self.as_map().contains_key(key) && prev.as_map().remove(k).contains_key(key)
                implies #[trigger] self.as_map()[key] == prev.as_map().remove(k)[key] by {
            let i = pair_index_of(news, key);
            let j = pair_index_of(olds, key);
            assert(news[i].0 == key);
            assert(olds[j].0 == key);
            assert(j != idx);
            if j < idx {
                assert(news[j].0 == key);
                assert(i == j);
            } else {
                assert(news[j - 1].0 == key);
                assert(i == j - 1);
            }
        }
    }

    /// The keys, in their sorted order.
    pub fn keys(&self) -> (r: Vec<String>)
        ensures
            r@.len() == self.spec_len(),
            forall|i: int|
                0 <= i < r@.len() ==> (#[trigger] r@[i])@ == self.pairs_view()[i].0,
    {
        let mut r: Vec<String> = Vec::new();
        let mut i: usize = 0;
        let n = self.pairs.len();
        while i < n
            invariant
                n == self.spec_len(),
                i <= n,
                r@.len() == i,
                forall|j: int| 0 <= j < i ==> (#[trigger] r@[j])@ == self.pairs_view()[j].0,
            decreases n - i,
        {
            r.push(self.pairs[i].0.clone());
            i = i + 1;
        }
        r
    }
}

/// The map obtained by inserting the pairs in order, later pairs winning.
pub open spec fn folded_map<V>(ps: Seq<(Seq<char>, V)>) -> Map<Seq<char>, V>
    decreases ps.len(),
{
    if ps.len() == 0 {
        Map::empty()
    } else {
        folded_map(ps.drop_last()).insert(ps.last().0, ps.last().1)
    }
}

/// Folding commutes with mapping the values: when `qs` carries the images of
/// the values of `ps` under `f`, folding `qs` is mapping the fold of `ps`.
pub proof fn lemma_folded_map_values<V, W>(
    ps: Seq<(Seq<char>, V)>,
    qs: Seq<(Seq<char>, W)>,
    f: spec_fn(V) -> W,
)
    requires
        qs.len() == ps.len(),
        forall|i: int| 0 <= i < ps.len() ==> #[trigger] qs[i] == ((#[trigger] ps[i]).0, f(ps[i].1)),
    ensures
        folded_map(ps).map_values(f) =~= folded_map(qs),
    decreases ps.len(),
{
    if ps.len() == 0 {
        assert(folded_map(ps).map_values(f) =~= Map::<Seq<char>, W>::empty());
    } else {
        lemma_folded_map_values(ps.drop_last(), qs.drop_last(), f);
        assert(qs.last() == (ps.last().0, f(ps.last().1)));
        assert(folded_map(qs) == folded_map(qs.drop_last()).insert(ps.last().0, f(ps.last().1)));
        assert(folded_map(ps).map_values(f) =~= folded_map(ps.drop_last()).map_values(f).insert(
            ps.last().0,
            f(ps.last().1),
        ));
    }
}

/// Folds of pointwise related pair lists are pointwise related maps.
pub proof fn lemma_folded_map_rel<V, W>(
    ps: Seq<(Seq<char>, V)>,
    qs: Seq<(Seq<char>, W)>,
    r: spec_fn(V, W) -> bool,
)
    requires
        qs.len() == ps.len(),
        forall|i: int|
            0 <= i < ps.len() ==> (#[trigger] qs[i]).0 == (#[trigger] ps[i]).0 && r(
                ps[i].1,
                qs[i].1,
            ),
    ensures
        forall|k: Seq<char>|
            folded_map(ps).contains_key(k) <==> #[trigger] folded_map(qs).contains_key(k),
        forall|k: Seq<char>| #[trigger]
            folded_map(ps).contains_key(k) ==> r(folded_map(ps)[k], folded_map(qs)[k]),
    decreases ps.len(),
{
    if ps.len() == 0 {
    } else {
        lemma_folded_map_rel(ps.drop_last(), qs.drop_last(), r);
        assert(qs.last().0 == ps.last().0 && r(ps.last().1, qs.last().1));
        assert(folded_map(ps) == folded_map(ps.drop_last()).insert(ps.last().0, ps.last().1));
        assert(folded_map(qs) == folded_map(qs.drop_last()).insert(qs.last().0, qs.last().1));
    }
}

/// The domain of a fold is the set of keys in the list.
pub proof fn lemma_folded_dom<V>(ps: Seq<(Seq<char>, V)>)
    ensures
        forall|k: Seq<char>|
            #[trigger] folded_map(ps).contains_key(k) <==> pairs_contain(ps, k),
    decreases ps.len(),
{
    if ps.len() == 0 {
    } else {
        lemma_folded_dom(ps.drop_last());
        assert(folded_map(ps) == folded_map(ps.drop_last()).insert(ps.last().0, ps.last().1));
        assert forall|k: Seq<char>| #[trigger] folded_map(ps).contains_key(k) implies
            pairs_contain(ps, k) by {
            if k == ps.last().0 {
                assert(ps[ps.len() - 1].0 == k);
            } else {
                assert(folded_map(ps.drop_last()).contains_key(k));
                assert(pairs_contain(ps.drop_last(), k));
                let i = choose|i: int|
                    0 <= i < ps.drop_last().len() && (#[trigger] ps.drop_last()[i]).0 == k;
                assert(ps.drop_last()[i] == ps[i]);
                assert(ps[i].0 == k);
            }
        }
        assert forall|k: Seq<char>| pairs_contain(ps, k) implies #[trigger] folded_map(
            ps,
        ).contains_key(k) by {
            let i = choose|i: int| 0 <= i < ps.len() && (#[trigger] ps[i]).0 == k;
            if i < ps.len() - 1 {
                assert(ps.drop_last()[i].0 == k);
                assert(pairs_contain(ps.drop_last(), k));
            }
        }
    }
}

/// View of a raw pair vector.
pub open spec fn raw_pairs<V>(v: Seq<(String, V)>) -> Seq<(Seq<char>, V)> {
    v.map_values(|p: (String, V)| (p.0@, p.1))
}

impl<V> StrMap<V> {
    /// Build a map from a pair list by inserting in order; when the list is
    /// already strictly sorted it is taken over unchanged.
    pub fn from_pairs(v: Vec<(String, V)>) -> (r: Self)
        ensures
            r.wf(),
            r.as_map() =~= folded_map(raw_pairs(v@)),
            pairs_sorted(raw_pairs(v@)) ==> r.pairs_view() =~= raw_pairs(v@),
    {
        let mut r: StrMap<V> = StrMap::new();
        let mut v = v;
        let ghost all = raw_pairs(v@);
        let mut i: usize = 0;
        proof {
            assert(raw_pairs(v@) =~= all.skip(0));
        }
        let ghost bound = v.len();
        while v.len() > 0
            invariant
                all.len() <= bound <= usize::MAX,
                i + v@.len() == all.len(),
                raw_pairs(v@) =~= all.skip(i as int),
                r.wf(),
                r.as_map() =~= folded_map(all.take(i as int)),
                pairs_sorted(all) ==> r.pairs_view() =~= all.take(i as int),
            decreases v@.len(),
        {
            let ghost prevv = v@;
            let ghost prevr = r;
            let (k, val) = v.remove(0);
            proof {
                assert(raw_pairs(prevv)[0] == all[i as int]);
                assert(k@ == all[i as int].0);
                assert(val == all[i as int].1);
                assert(raw_pairs(v@) =~= raw_pairs(prevv).drop_first());
                assert(raw_pairs(v@) =~= all.skip(i + 1));
                if pairs_sorted(all) {
                    assert forall|j: int|
                        0 <= j < prevr.pairs_view().len() implies crate::strutil::seq_char_lt(
                        (#[trigger] prevr.pairs_view()[j]).0,
                        k@,
                    ) by {
                        assert(prevr.pairs_view()[j] == all.take(i as int)[j]);
                        assert(all.take(i as int)[j] == all[j]);
                        assert(crate::strutil::seq_char_lt(all[j].0, all[i as int].0));
                    }
                }
            }
            r.insert(k, val);
            proof {
                assert(all.take(i + 1).drop_last() =~= all.take(i as int));
                assert(all.take(i + 1).last() == all[i as int]);
                assert(folded_map(all.take(i + 1)) == folded_map(all.take(i as int)).insert(
                    all[i as int].0,
                    all[i as int].1,
                ));
                if pairs_sorted(all) {
                    assert(r.pairs_view() =~= all.take(i as int).push(all[i as int]));
                    assert(r.pairs_view() =~= all.take(i + 1));
                }
            }
            i = i + 1;
        }
        proof {
            assert(all.take(all.len() as int) =~= all);
        }
        r
    }
}

impl StrMap<String> {
    /// The pairs with both sides abstracted to character sequences.
    pub open spec fn str_pairs(self) -> Seq<(Seq<char>, Seq<char>)> {
        self.pairs_view().map_values(|p: (Seq<char>, String)| (p.0, p.1@))
    }

    /// The abstract string-to-string map.
    pub open spec fn str_map(self) -> Map<Seq<char>, Seq<char>> {
        self.as_map().map_values(|v: String| v@)
    }

    /// A copy holding the same pairs.
    pub fn duplicate(&self) -> (r: Self)
        requires
            self.wf(),
        ensures
            r.wf(),
            r.pairs_view() == self.pairs_view(),
    {
        let mut pairs: Vec<(String, String)> = Vec::new();
        let n = self.pairs.len();
        let mut i: usize = 0;
        while i < n
            invariant
                n == self.spec_len(),
                i <= n,
                pairs@.len() == i,
                forall|j: int| 0 <= j < i ==> pairs@[j] == self.pairs@[j],
            decreases n - i,
        {
            let k = self.pairs[i].0.clone();
            let v = self.pairs[i].1.clone();
            pairs.push((k, v));
            i = i + 1;
        }
        let r = StrMap { pairs };
        proof {
            assert(r.pairs@ =~= self.pairs@);
            assert(r.pairs_view() =~= self.pairs_view());
        }
        r
    }
}

/// A duplicate-free list of keys all present in a sorted map is no longer
/// than the map.
pub proof fn lemma_distinct_members_bound<V>(keys: Seq<Seq<char>>, m: StrMap<V>)
    requires
        m.wf(),
        keys.no_duplicates(),
        forall|i: int| 0 <= i < keys.len() ==> pairs_contain(m.pairs_view(), #[trigger] keys[i]),
    ensures
        keys.len() <= m.spec_len(),
{
    m.lemma_unique_keys();
    let pv = m.pairs_view();
    let idx = Seq::new(keys.len(), |i: int| pair_index_of(pv, keys[i]));
    assert forall|i: int| 0 <= i < idx.len() implies 0 <= #[trigger] idx[i] < pv.len() && pv[
        idx[i]
    ].0 == keys[i] by {
        assert(pairs_contain(pv, keys[i]));
    }
    assert(idx.no_duplicates()) by {
        assert forall|i: int, j: int|
            0 <= i < idx.len() && 0 <= j < idx.len() && i != j implies idx[i] != idx[j] by {
            if idx[i] == idx[j] {
                assert(pv[idx[i]].0 == keys[i]);
                assert(pv[idx[j]].0 == keys[j]);
                assert(keys[i] == keys[j]);
            }
        }
    }
    idx.unique_seq_to_set();
    vstd::set_lib::lemma_int_range(0, pv.len() as int);
    assert(idx.to_set().subset_of(vstd::set_lib::set_int_range(0, pv.len() as int))) by {
        assert forall|x: int| idx.to_set().contains(x) implies vstd::set_lib::set_int_range(
            0,
            pv.len() as int,
        ).contains(x) by {
            let i = choose|i: int| 0 <= i < idx.len() && idx[i] == x;
        }
    }
    vstd::set_lib::lemma_len_subset(
        idx.to_set(),
        vstd::set_lib::set_int_range(0, pv.len() as int),
    );
}

} // verus!
