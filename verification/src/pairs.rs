//! Key/value utilities: zipping two slices of strings into a map, and
//! flattening such a map into a key-sorted vector of pairs.
//!
//! The map is a plain association list with unique keys, so that its
//! contents stay fully visible to the verifier.

use vstd::prelude::*;

verus! {

/// The map described by a pair list; a later pair overwrites an earlier one
/// with the same key.
pub open spec fn map_from_pairs(ps: Seq<(Seq<char>, Seq<char>)>) -> Map<Seq<char>, Seq<char>>
    decreases ps.len(),
{
    if ps.len() == 0 {
        Map::empty()
    } else {
        map_from_pairs(ps.drop_last()).insert(ps.last().0, ps.last().1)
    }
}

/// The keys of the pair list are pairwise distinct.
pub open spec fn distinct_keys(ps: Seq<(Seq<char>, Seq<char>)>) -> bool {
    forall|i: int, j: int| 0 <= i < j < ps.len() ==> (#[trigger] ps[i]).0 != (#[trigger] ps[j]).0
}

/// The map that assigns to each element of `keys` the value at the same
/// position in `vals`, the last occurrence of a repeated key winning.
pub open spec fn zipped_map(keys: Seq<Seq<char>>, vals: Seq<Seq<char>>) -> Map<
    Seq<char>,
    Seq<char>,
>
    recommends
        keys.len() == vals.len(),
    decreases keys.len(),
{
    if keys.len() == 0 {
        Map::empty()
    } else {
        zipped_map(keys.drop_last(), vals.drop_last()).insert(keys.last(), vals.last())
    }
}

/// Strict lexicographic order on character sequences, by code point.
pub open spec fn lex_lt(a: Seq<char>, b: Seq<char>) -> bool
    decreases a.len(),
{
    if b.len() == 0 {
        false
    } else if a.len() == 0 {
        true
    } else if a.first() != b.first() {
        (a.first() as u32) < (b.first() as u32)
    } else {
        lex_lt(a.drop_first(), b.drop_first())
    }
}

/// Lexicographic order or equality.
pub open spec fn lex_le(a: Seq<char>, b: Seq<char>) -> bool {
    lex_lt(a, b) || a == b
}

/// Pairs stand in weakly ascending key order.
pub open spec fn sorted_by_key(ps: Seq<(Seq<char>, Seq<char>)>) -> bool {
    forall|i: int, j: int|
        0 <= i < j < ps.len() ==> lex_le((#[trigger] ps[i]).0, (#[trigger] ps[j]).0)
}

/// Any two character sequences are ordered or equal.
pub proof fn lemma_lex_total(a: Seq<char>, b: Seq<char>)
    ensures
        lex_lt(a, b) || lex_lt(b, a) || a == b,
    decreases a.len(),
{
    if b.len() == 0 {
        if a.len() == 0 {
            assert(a =~= b);
        }
    } else if a.len() == 0 {
    } else if a.first() == b.first() {
        lemma_lex_total(a.drop_first(), b.drop_first());
        if a.drop_first() == b.drop_first() {
            assert(a =~= b) by {
                assert(forall|i: int|
                    1 <= i < a.len() ==> a[i] == a.drop_first()[i - 1] && b[i]
                        == b.drop_first()[i - 1]);
            }
        } else if lex_lt(a.drop_first(), b.drop_first()) {
            assert(lex_lt(a, b));
        } else {
            assert(lex_lt(b, a));
        }
    } else {
        assert(a.first() as u32 != b.first() as u32) by {
            vstd::utf8::char_u32_cast(a.first(), a.first() as u32);
            vstd::utf8::char_u32_cast(b.first(), b.first() as u32);
        }
        if (a.first() as u32) < (b.first() as u32) {
            assert(lex_lt(a, b));
        } else {
            assert(lex_lt(b, a));
        }
    }
}

proof fn lemma_lex_lt_trans(a: Seq<char>, b: Seq<char>, c: Seq<char>)
    requires
        lex_lt(a, b),
        lex_lt(b, c),
    ensures
        lex_lt(a, c),
    decreases a.len(),
{
    if a.len() == 0 {
    } else {
        if a.first() == b.first() && b.first() == c.first() {
            lemma_lex_lt_trans(a.drop_first(), b.drop_first(), c.drop_first());
        }
    }
}

/// `lex_le` is transitive.
pub proof fn lemma_lex_le_trans(a: Seq<char>, b: Seq<char>, c: Seq<char>)
    requires
        lex_le(a, b),
        lex_le(b, c),
    ensures
        lex_le(a, c),
{
    if a != b && b != c {
        lemma_lex_lt_trans(a, b, c);
    }
}

/// Compares two strings in lexicographic (code point) order.
fn str_lt(a: &str, b: &str) -> (r: bool)
    ensures
        r == lex_lt(a@, b@),
{
    let an = a.unicode_len();
    let bn = b.unicode_len();
    let min = if an < bn {
        an
    } else {
        bn
    };
    let mut i: usize = 0;
    proof {
        assert(a@.skip(0) =~= a@);
        assert(b@.skip(0) =~= b@);
    }
    while i < min
        invariant
            0 <= i <= min,
            an == a@.len(),
            bn == b@.len(),
            min == if an < bn { an as int } else { bn as int },
            lex_lt(a@, b@) == lex_lt(a@.skip(i as int), b@.skip(i as int)),
        decreases min - i,
    {
        let ca = a.get_char(i);
        let cb = b.get_char(i);
        proof {
            assert(a@.skip(i as int).first() == a@[i as int]);
            assert(b@.skip(i as int).first() == b@[i as int]);
            assert(a@.skip(i as int).drop_first() =~= a@.skip(i as int + 1));
            assert(b@.skip(i as int).drop_first() =~= b@.skip(i as int + 1));
        }
        if ca != cb {
            return (ca as u32) < (cb as u32);
        }
        i += 1;
    }
    proof {
        assert(a@.skip(min as int).len() == a@.len() - min);
        assert(b@.skip(min as int).len() == b@.len() - min);
        if an < bn {
            assert(a@.skip(min as int).len() == 0);
            assert(lex_lt(a@.skip(min as int), b@.skip(min as int)));
        } else {
            assert(b@.skip(min as int).len() == 0);
            assert(!lex_lt(a@.skip(min as int), b@.skip(min as int)));
        }
    }
    an < bn
}

/// A string-keyed map of strings, held as an association list whose keys are
/// pairwise distinct.
#[derive(Debug)]
pub struct StringMap {
    pairs: Vec<(String, String)>,
}

impl View for StringMap {
    type V = Seq<(Seq<char>, Seq<char>)>;

    closed spec fn view(&self) -> Seq<(Seq<char>, Seq<char>)> {
        self.pairs.deep_view()
    }
}

proof fn lemma_mfp_push(ps: Seq<(Seq<char>, Seq<char>)>, k: Seq<char>, v: Seq<char>)
    ensures
        map_from_pairs(ps.push((k, v))) == map_from_pairs(ps).insert(k, v),
{
    assert(ps.push((k, v)).drop_last() =~= ps);
    assert(ps.push((k, v)).last() == (k, v));
}

proof fn lemma_mfp_update(ps: Seq<(Seq<char>, Seq<char>)>, i: int, v: Seq<char>)
    requires
        distinct_keys(ps),
        0 <= i < ps.len(),
    ensures
        map_from_pairs(ps.update(i, (ps[i].0, v))) == map_from_pairs(ps).insert(ps[i].0, v),
    decreases ps.len(),
{
    let q = ps.update(i, (ps[i].0, v));
    if i == ps.len() - 1 {
        assert(q.drop_last() =~= ps.drop_last());
        assert(q.last() == (ps[i].0, v));
        assert(map_from_pairs(ps.drop_last()).insert(ps[i].0, ps[i].1).insert(ps[i].0, v)
            =~= map_from_pairs(ps.drop_last()).insert(ps[i].0, v));
    } else {
        assert(q.drop_last() =~= ps.drop_last().update(i, (ps[i].0, v)));
        assert(q.last() == ps.last());
        assert(distinct_keys(ps.drop_last())) by {
            assert(forall|a: int|
                0 <= a < ps.drop_last().len() ==> ps.drop_last()[a] == #[trigger] ps[a]);
        }
        assert(ps.drop_last()[i] == ps[i]);
        lemma_mfp_update(ps.drop_last(), i, v);
        assert(ps[i].0 != ps.last().0);
        assert(map_from_pairs(ps.drop_last()).insert(ps[i].0, v).insert(ps.last().0, ps.last().1)
            =~= map_from_pairs(ps.drop_last()).insert(ps.last().0, ps.last().1).insert(
            ps[i].0,
            v,
        ));
    }
}

impl StringMap {
    /// The keys stored in the list are pairwise distinct.
    pub open spec fn wf(self) -> bool {
        distinct_keys(self@)
    }

    /// The mathematical map this association list holds.
    pub open spec fn as_map(self) -> Map<Seq<char>, Seq<char>> {
        map_from_pairs(self@)
    }

    /// An empty map.
    pub fn new() -> (m: Self)
        ensures
            m@ == Seq::<(Seq<char>, Seq<char>)>::empty(),
            m.wf(),
    {
        let m = StringMap { pairs: Vec::new() };
        proof {
            assert(m@ =~= Seq::<(Seq<char>, Seq<char>)>::empty());
        }
        m
    }

    /// The number of keys held.
    pub fn len(&self) -> (n: usize)
        ensures
            n == self@.len(),
    {
        self.pairs.len()
    }

    /// Inserts `key -> value`, replacing the value under an existing key.
    pub fn insert(&mut self, key: String, value: String)
        requires
            old(self).wf(),
        ensures
            final(self).wf(),
            final(self).as_map() == old(self).as_map().insert(key@, value@),
    {
        let n = self.pairs.len();
        let mut i: usize = 0;
        while i < n
            invariant
                *self == *old(self),
                old(self).wf(),
                0 <= i <= n,
                n == self.pairs@.len(),
                forall|k: int| 0 <= k < i ==> (#[trigger] self@[k]).0 != key@,
            decreases n - i,
        {
            proof {
                assert(self@[i as int] == (self.pairs@[i as int].0@, self.pairs@[i as int].1@));
            }
            if self.pairs[i].0 == key {
                let kc = self.pairs[i].0.clone();
                let ghost pre = self@;
                self.pairs[i] = (kc, value);
                proof {
                    assert(self@ =~= pre.update(i as int, (key@, value@)));
                    assert(pre[i as int].0 == key@);
                    lemma_mfp_update(pre, i as int, value@);
                    assert(distinct_keys(self@)) by {
                        assert(forall|a: int|
                            0 <= a < pre.len() && a != i ==> self@[a] == #[trigger] pre[a]);
                        assert(self@[i as int].0 == pre[i as int].0);
                    }
                }
                return ;
            }
            i += 1;
        }
        let ghost pre = self@;
        self.pairs.push((key, value));
        proof {
            assert(self@ =~= pre.push((key@, value@)));
            lemma_mfp_push(pre, key@, value@);
            assert(distinct_keys(self@)) by {
                assert(forall|a: int| 0 <= a < pre.len() ==> self@[a] == #[trigger] pre[a]);
                assert(self@[pre.len() as int].0 == key@);
            }
        }
    }
}

/// Zips two slices into a string map, mapping `arr1[i]` to `arr2[i]`; a
/// repeated key keeps the value at its last occurrence. Returns None when
/// the slices differ in length.
pub fn zip_hash(arr1: &[String], arr2: &[String]) -> (r: Option<StringMap>)
    ensures
        r is Some <==> arr1@.len() == arr2@.len(),
        r matches Some(m) ==> m.wf() && m.as_map() == zipped_map(
            arr1.deep_view(),
            arr2.deep_view(),
        ),
{
    if arr1.len() != arr2.len() {
        return None;
    }
    let n = arr1.len();
    let mut m = StringMap::new();
    let mut i: usize = 0;
    proof {
        assert(arr1.deep_view().take(0) =~= Seq::<Seq<char>>::empty());
        assert(arr2.deep_view().take(0) =~= Seq::<Seq<char>>::empty());
    }
    while i < n
        invariant
            0 <= i <= n,
            n == arr1@.len() == arr2@.len(),
            arr1.deep_view().len() == n,
            arr2.deep_view().len() == n,
            m.wf(),
            m.as_map() == zipped_map(
                arr1.deep_view().take(i as int),
                arr2.deep_view().take(i as int),
            ),
        decreases n - i,
    {
        proof {
            let ka = arr1.deep_view();
            let va = arr2.deep_view();
            assert(ka.take(i as int + 1).drop_last() =~= ka.take(i as int));
            assert(va.take(i as int + 1).drop_last() =~= va.take(i as int));
            assert(ka.take(i as int + 1).last() == ka[i as int]);
            assert(va.take(i as int + 1).last() == va[i as int]);
            assert(ka[i as int] == arr1@[i as int]@);
            assert(va[i as int] == arr2@[i as int]@);
        }
        let key = vstd::slice::slice_index_get(arr1, i).clone();
        let value = vstd::slice::slice_index_get(arr2, i).clone();
        m.insert(key, value);
        i += 1;
    }
    proof {
        assert(arr1.deep_view().take(n as int) =~= arr1.deep_view());
        assert(arr2.deep_view().take(n as int) =~= arr2.deep_view());
    }
    Some(m)
}

/// Sorts `v` by key in weakly ascending lexicographic order by insertion.
fn sort_pairs(v: &mut Vec<(String, String)>)
    ensures
        sorted_by_key(final(v).deep_view()),
        final(v).deep_view().to_multiset() == old(v).deep_view().to_multiset(),
        final(v)@.len() == old(v)@.len(),
{
    let n = v.len();
    let mut i: usize = 0;
    proof {
        assert(v.deep_view().take(0) =~= Seq::<(Seq<char>, Seq<char>)>::empty());
    }
    while i < n
        invariant
            0 <= i <= n,
            v@.len() == n == old(v)@.len(),
            v.deep_view().to_multiset() == old(v).deep_view().to_multiset(),
            sorted_by_key(v.deep_view().take(i as int)),
        decreases n - i,
    {
        let mut j: usize = i;
        proof {
            let dv = v.deep_view();
            assert forall|a: int, b: int|
                0 <= a < b <= i && b != i implies lex_le(
                (#[trigger] dv[a]).0,
                (#[trigger] dv[b]).0,
            ) by {
                assert(dv.take(i as int)[a] == dv[a]);
                assert(dv.take(i as int)[b] == dv[b]);
            }
        }
        while j > 0
            invariant
                0 <= j <= i < n,
                v@.len() == n,
                v.deep_view().to_multiset() == old(v).deep_view().to_multiset(),
                forall|a: int, b: int|
                    0 <= a < b <= i && b != j ==> lex_le(
                        (#[trigger] v.deep_view()[a]).0,
                        (#[trigger] v.deep_view()[b]).0,
                    ),
            ensures
                0 <= j <= i < n,
                v@.len() == n,
                v.deep_view().to_multiset() == old(v).deep_view().to_multiset(),
                forall|a: int, b: int|
                    0 <= a < b <= i && b != j ==> lex_le(
                        (#[trigger] v.deep_view()[a]).0,
                        (#[trigger] v.deep_view()[b]).0,
                    ),
                j == 0 || lex_le(v.deep_view()[j - 1].0, v.deep_view()[j as int].0),
            decreases j,
        {
            proof {
                assert(v.deep_view()[j as int] == (v@[j as int].0@, v@[j as int].1@));
                assert(v.deep_view()[j - 1] == (v@[j - 1].0@, v@[j - 1].1@));
            }
            let lt = str_lt(v[j].0.as_str(), v[j - 1].0.as_str());
            if !lt {
                proof {
                    lemma_lex_total(v.deep_view()[j - 1].0, v.deep_view()[j as int].0);
                }
                break ;
            }
            let ghost s = v@;
            let ghost dvold = v.deep_view();
            let x = (v[j - 1].0.clone(), v[j - 1].1.clone());
            let y = (v[j].0.clone(), v[j].1.clone());
            proof {
                assert(x == s[j - 1]);
                assert(y == s[j as int]);
            }
            v[j - 1] = y;
            v[j] = x;
            proof {
                assert(v@ =~= s.update(j - 1, s[j as int]).update(j as int, s[j - 1]));
                assert(v.deep_view() =~= dvold.update(j - 1, dvold[j as int]).update(
                    j as int,
                    dvold[j - 1],
                )) by {
                    assert(forall|k: int|
                        0 <= k < v@.len() ==> (#[trigger] v.deep_view()[k]) == (
                        v@[k].0@,
                        v@[k].1@,
                        ));
                    assert(forall|k: int|
                        0 <= k < dvold.len() ==> (#[trigger] dvold[k]) == (s[k].0@, s[k].1@));
                }
                crate::seqs::lemma_swap_preserves_multiset(dvold, j - 1, j as int);
            }
            j -= 1;
        }
        proof {
            let dv = v.deep_view();
            assert forall|a: int, b: int|
                0 <= a < b <= i implies lex_le((#[trigger] dv[a]).0, (#[trigger] dv[b]).0) by {
                if b == j && j > 0 && a < j - 1 {
                    assert(lex_le(dv[a].0, dv[j - 1].0));
                    lemma_lex_le_trans(dv[a].0, dv[j - 1].0, dv[j as int].0);
                }
            }
            assert forall|a: int, b: int|
                0 <= a < b < i + 1 implies lex_le(
                (#[trigger] dv.take(i + 1)[a]).0,
                (#[trigger] dv.take(i + 1)[b]).0,
            ) by {
                assert(dv.take(i + 1)[a] == dv[a]);
                assert(dv.take(i + 1)[b] == dv[b]);
            }
            assert(sorted_by_key(dv.take(i + 1)));
        }
        i += 1;
    }
    proof {
        assert(v.deep_view().take(n as int) =~= v.deep_view());
    }
}

/// Converts a string map into a vector of (key, value) pairs, sorted by key
/// in ascending lexicographic (code point) order.
pub fn hash_to_array(map: &StringMap) -> (r: Vec<(String, String)>)
    requires
        map.wf(),
    ensures
        r.deep_view().to_multiset() == map@.to_multiset(),
        sorted_by_key(r.deep_view()),
{
    let n = map.pairs.len();
    let mut result: Vec<(String, String)> = Vec::new();
    let mut i: usize = 0;
    proof {
        assert(result.deep_view() =~= map@.take(0));
    }
    while i < n
        invariant
            0 <= i <= n,
            n == map.pairs@.len(),
            result.deep_view() == map@.take(i as int),
        decreases n - i,
    {
        let ghost prev = result.deep_view();
        proof {
            assert(map@[i as int] == (map.pairs@[i as int].0@, map.pairs@[i as int].1@));
            assert(map@.take(i as int + 1) =~= prev.push(map@[i as int]));
        }
        let p = &map.pairs[i];
        result.push((p.0.clone(), p.1.clone()));
        proof {
            assert(result.deep_view() =~= prev.push(map@[i as int]));
        }
        i += 1;
    }
    proof {
        assert(map@.take(n as int) =~= map@);
    }
    sort_pairs(&mut result);
    result
}

} // verus!
