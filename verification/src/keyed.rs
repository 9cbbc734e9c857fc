//! Lists of `(key, value)` string pairs used as maps: a later pair for the
//! same key replaces an earlier one, as when the pairs are collected into a
//! `HashMap`.
use vstd::prelude::*;

use crate::text::{chars_equal, chars_of};

verus! {

/// The contents of a list of string pairs.
pub open spec fn pair_views(v: Seq<(String, String)>) -> Seq<(Seq<char>, Seq<char>)> {
    v.map_values(|p: (String, String)| (p.0@, p.1@))
}

/// The value that the pairs give to `key`: the one of the last pair with that key.
pub open spec fn lookup(pairs: Seq<(Seq<char>, Seq<char>)>, key: Seq<char>) -> Option<Seq<char>>
    decreases pairs.len(),
{
    if pairs.len() == 0 {
        None
    } else if pairs.last().0 == key {
        Some(pairs.last().1)
    } else {
        lookup(pairs.drop_last(), key)
    }
}

/// No key occurs twice.
pub open spec fn distinct_keys(pairs: Seq<(Seq<char>, Seq<char>)>) -> bool {
    forall|i: int, j: int| 0 <= i < j < pairs.len() ==> pairs[i].0 != pairs[j].0
}

/// `key` is the key of some pair.
pub open spec fn has_key(pairs: Seq<(Seq<char>, Seq<char>)>, key: Seq<char>) -> bool {
    exists|i: int| 0 <= i < pairs.len() && #[trigger] pairs[i].0 == key
}

/// In a list without repeated keys, each pair is what its key looks up.
pub proof fn lemma_lookup_distinct(pairs: Seq<(Seq<char>, Seq<char>)>, j: int)
    requires
        distinct_keys(pairs),
        0 <= j < pairs.len(),
    ensures
        lookup(pairs, pairs[j].0) == Some(pairs[j].1),
    decreases pairs.len(),
{
    if j < pairs.len() - 1 {
        assert(pairs.drop_last()[j] == pairs[j]);
        lemma_lookup_distinct(pairs.drop_last(), j);
    }
}

/// A key that no pair has looks up nothing; a key that looks up something is
/// the key of some pair.
pub proof fn lemma_lookup_has_key(pairs: Seq<(Seq<char>, Seq<char>)>, key: Seq<char>)
    ensures
        lookup(pairs, key) is Some <==> has_key(pairs, key),
    decreases pairs.len(),
{
    if pairs.len() > 0 {
        lemma_lookup_has_key(pairs.drop_last(), key);
        if has_key(pairs, key) && pairs.last().0 != key {
            let i = choose|i: int| 0 <= i < pairs.len() && #[trigger] pairs[i].0 == key;
            assert(pairs.drop_last()[i].0 == key);
        }
        if has_key(pairs.drop_last(), key) {
            let i = choose|i: int|
                0 <= i < pairs.drop_last().len() && #[trigger] pairs.drop_last()[i].0 == key;
            assert(pairs[i].0 == key);
        }
    }
}

/// Replacing the value of the pair at `j` changes what its key looks up and nothing else.
proof fn lemma_lookup_update(
    pairs: Seq<(Seq<char>, Seq<char>)>,
    j: int,
    v: Seq<char>,
    key: Seq<char>,
)
    requires
        0 <= j < pairs.len(),
        distinct_keys(pairs),
    ensures
        lookup(pairs.update(j, (pairs[j].0, v)), key) == if key == pairs[j].0 {
            Some(v)
        } else {
            lookup(pairs, key)
        },
    decreases pairs.len(),
{
    let upd = pairs.update(j, (pairs[j].0, v));
    if key == pairs[j].0 {
        assert(distinct_keys(upd)) by {
            assert forall|a: int, b: int| 0 <= a < b < upd.len() implies upd[a].0 != upd[b].0 by {
                assert(upd[a].0 == pairs[a].0);
                assert(upd[b].0 == pairs[b].0);
            }
        }
        lemma_lookup_distinct(upd, j);
    } else if j == pairs.len() - 1 {
        assert(upd.drop_last() =~= pairs.drop_last());
    } else {
        lemma_lookup_update(pairs.drop_last(), j, v, key);
        assert(upd.drop_last() =~= pairs.drop_last().update(j, (pairs[j].0, v)));
    }
}

/// Index of the pair whose key is `key`, if there is one.
pub fn find_key(pairs: &Vec<(String, String)>, key: &Vec<char>) -> (res: Option<usize>)
    ensures
        match res {
            Some(j) => j < pairs.len() && pair_views(pairs@)[j as int].0 == key@,
            None => !has_key(pair_views(pairs@), key@),
        },
{
    let mut j: usize = 0;
    while j < pairs.len()
        invariant
            j <= pairs.len(),
            forall|k: int| 0 <= k < j ==> pair_views(pairs@)[k].0 != key@,
        decreases pairs.len() - j,
    {
        let k = chars_of(pairs[j].0.as_str());
        if chars_equal(&k, key) {
            return Some(j);
        }
        j += 1;
    }
    None
}

/// Looks up `key`: the value of the pair with that key, in a list without repeated keys.
pub fn lookup_exec<'a>(pairs: &'a Vec<(String, String)>, key: &Vec<char>) -> (res: Option<&'a str>)
    requires
        distinct_keys(pair_views(pairs@)),
    ensures
        match res {
            Some(v) => lookup(pair_views(pairs@), key@) == Some(v@),
            None => lookup(pair_views(pairs@), key@) is None,
        },
{
    proof {
        lemma_lookup_has_key(pair_views(pairs@), key@);
    }
    match find_key(pairs, key) {
        Some(j) => {
            proof {
                lemma_lookup_distinct(pair_views(pairs@), j as int);
            }
            Some(pairs[j].1.as_str())
        },
        None => None,
    }
}

/// The pairs with each repeated key kept once, with the value of its last pair.
pub fn collect_pairs(pairs: &Vec<(String, String)>) -> (res: Vec<(String, String)>)
    ensures
        distinct_keys(pair_views(res@)),
        forall|key: Seq<char>|
            lookup(#[trigger] pair_views(res@), key) == lookup(pair_views(pairs@), key),
{
    let mut res: Vec<(String, String)> = Vec::new();
    let mut i: usize = 0;
    while i < pairs.len()
        invariant
            i <= pairs.len(),
            distinct_keys(pair_views(res@)),
            forall|key: Seq<char>|
                lookup(#[trigger] pair_views(res@), key) == lookup(
                    pair_views(pairs@).take(i as int),
                    key,
                ),
        decreases pairs.len() - i,
    {
        let ghost before = pair_views(res@);
        let ghost upto = pair_views(pairs@).take(i + 1);
        assert(upto.drop_last() =~= pair_views(pairs@).take(i as int));
        let key = chars_of(pairs[i].0.as_str());
        let k = pairs[i].0.clone();
        let v = pairs[i].1.clone();
        assert(upto.last() == (key@, v@));
        match find_key(&res, &key) {
            Some(j) => {
                res.set(j, (k, v));
                assert(pair_views(res@) =~= before.update(j as int, (before[j as int].0, v@)));
                assert forall|q: Seq<char>|
                    lookup(#[trigger] pair_views(res@), q) == lookup(upto, q) by {
                    lemma_lookup_update(before, j as int, v@, q);
                }
                assert(distinct_keys(pair_views(res@))) by {
                    assert forall|a: int, b: int|
                        0 <= a < b < pair_views(res@).len() implies pair_views(res@)[a].0
                        != pair_views(res@)[b].0 by {
                        assert(pair_views(res@)[a].0 == before[a].0);
                        assert(pair_views(res@)[b].0 == before[b].0);
                    }
                }
            },
            None => {
                res.push((k, v));
                assert(pair_views(res@) =~= before.push((key@, v@)));
                assert forall|q: Seq<char>|
                    lookup(#[trigger] pair_views(res@), q) == lookup(upto, q) by {
                    assert(pair_views(res@).drop_last() =~= before);
                    assert(lookup(before, q) == lookup(upto.drop_last(), q));
                }
                assert(distinct_keys(pair_views(res@))) by {
                    assert forall|a: int, b: int|
                        0 <= a < b < pair_views(res@).len() implies pair_views(res@)[a].0
                        != pair_views(res@)[b].0 by {
                        if b == before.len() {
                            assert(before[a].0 == pair_views(res@)[a].0);
                        }
                    }
                }
            },
        }
        i += 1;
    }
    assert(pair_views(pairs@).take(pairs.len() as int) =~= pair_views(pairs@));
    res
}

} // verus!
