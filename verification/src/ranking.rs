//! How well a skill matches a search query, and the order in which matching
//! skills are listed.
use vstd::prelude::*;

use crate::text::{
    contains, contains_exec, lemma_lex_less_asymmetric, lemma_lex_less_irreflexive,
    lemma_lex_less_total, lemma_lex_less_transitive, lex_less, lex_less_exec, occurs_at,
    starts_with, starts_with_exec, views, chars_equal,
};

verus! {

/// Points for the id: exact match, prefix, or anywhere.
pub open spec fn id_points(id: Seq<char>, q: Seq<char>) -> nat {
    if id == q {
        100
    } else if starts_with(id, q) {
        80
    } else if contains(id, q) {
        60
    } else {
        0
    }
}

/// Points for the name: exact match, prefix, or anywhere.
pub open spec fn name_points(name: Seq<char>, q: Seq<char>) -> nat {
    if name == q {
        90
    } else if starts_with(name, q) {
        70
    } else if contains(name, q) {
        50
    } else {
        0
    }
}

/// Points for the category: exact match or anywhere.
pub open spec fn category_points(category: Seq<char>, q: Seq<char>) -> nat {
    if category == q {
        40
    } else if contains(category, q) {
        20
    } else {
        0
    }
}

/// Points for the description: the whole query anywhere in it.
pub open spec fn description_points(description: Seq<char>, q: Seq<char>) -> nat {
    if contains(description, q) {
        30
    } else {
        0
    }
}

/// Points for each query word: 10 if it occurs in the id, 5 if it occurs in the
/// description (a word that appears twice in the query counts twice).
pub open spec fn word_points(id: Seq<char>, description: Seq<char>, words: Seq<Seq<char>>) -> nat
    decreases words.len(),
{
    if words.len() == 0 {
        0
    } else {
        word_points(id, description, words.drop_last()) + (if contains(id, words.last()) {
            10nat
        } else {
            0nat
        }) + (if contains(description, words.last()) {
            5nat
        } else {
            0nat
        })
    }
}

/// The score of a skill whose lowercased id, name, description and category
/// are given, against the lowercased query `q` and its words.
pub open spec fn match_score(
    id: Seq<char>,
    name: Seq<char>,
    description: Seq<char>,
    category: Seq<char>,
    q: Seq<char>,
    words: Seq<Seq<char>>,
) -> nat {
    id_points(id, q) + name_points(name, q) + category_points(category, q) + description_points(
        description,
        q,
    ) + word_points(id, description, words)
}

/// Computes `match_score` for lowercased fields and the lowercased query.
pub fn match_score_exec(
    id: &Vec<char>,
    name: &Vec<char>,
    description: &Vec<char>,
    category: &Vec<char>,
    q: &Vec<char>,
    words: &Vec<Vec<char>>,
) -> (score: u128)
    ensures
        score == match_score(id@, name@, description@, category@, q@, views(words@)),
{
    let mut score: u128 = 0;
    if chars_equal(id, q) {
        score += 100;
    } else if starts_with_exec(id, q) {
        score += 80;
    } else if contains_exec(id, q) {
        score += 60;
    }
    if chars_equal(name, q) {
        score += 90;
    } else if starts_with_exec(name, q) {
        score += 70;
    } else if contains_exec(name, q) {
        score += 50;
    }
    if chars_equal(category, q) {
        score += 40;
    } else if contains_exec(category, q) {
        score += 20;
    }
    if contains_exec(description, q) {
        score += 30;
    }
    assert(score == id_points(id@, q@) + name_points(name@, q@) + category_points(category@, q@)
        + description_points(description@, q@));
    let ghost base = score;
    let mut k: usize = 0;
    assert(views(words@).take(0) =~= Seq::<Seq<char>>::empty());
    while k < words.len()
        invariant
            k <= words.len(),
            base <= 260,
            score == base + word_points(id@, description@, views(words@).take(k as int)),
            score <= base + 15 * k,
        decreases words.len() - k,
    {
        assert(views(words@).take(k + 1).drop_last() =~= views(words@).take(k as int));
        assert(views(words@).take(k + 1).last() == words@[k as int]@);
        if contains_exec(id, &words[k]) {
            score += 10;
        }
        if contains_exec(description, &words[k]) {
            score += 5;
        }
        k += 1;
    }
    assert(views(words@).take(words.len() as int) =~= views(words@));
    score
}

proof fn lemma_word_points_member(id: Seq<char>, description: Seq<char>, words: Seq<Seq<char>>, k: int)
    requires
        0 <= k < words.len(),
    ensures
        contains(id, words[k]) ==> word_points(id, description, words) >= 10,
        contains(description, words[k]) ==> word_points(id, description, words) >= 5,
    decreases words.len(),
{
    if k < words.len() - 1 {
        assert(words.drop_last()[k] == words[k]);
        lemma_word_points_member(id, description, words.drop_last(), k);
    }
}

proof fn lemma_word_points_none(id: Seq<char>, description: Seq<char>, words: Seq<Seq<char>>)
    requires
        forall|k: int|
            0 <= k < words.len() ==> !contains(id, #[trigger] words[k]) && !contains(
                description,
                words[k],
            ),
    ensures
        word_points(id, description, words) == 0,
    decreases words.len(),
{
    if words.len() > 0 {
        assert forall|k: int| 0 <= k < words.drop_last().len() implies !contains(
            id,
            #[trigger] words.drop_last()[k],
        ) && !contains(description, words.drop_last()[k]) by {
            assert(words.drop_last()[k] == words[k]);
        }
        lemma_word_points_none(id, description, words.drop_last());
        assert(words.last() == words[words.len() - 1]);
    }
}

/// Every kind of match scores. A query that occurs in the id gives at least
/// 60 points, in the name at least 50, in the category at least 20 and in the
/// description 30; each query word that occurs in the id adds at least 10 and
/// each that occurs in the description at least 5. Whatever matches nothing
/// scores 0.
pub proof fn lemma_match_score_matches(
    id: Seq<char>,
    name: Seq<char>,
    description: Seq<char>,
    category: Seq<char>,
    q: Seq<char>,
    words: Seq<Seq<char>>,
)
    ensures
        contains(id, q) ==> match_score(id, name, description, category, q, words) >= 60,
        contains(name, q) ==> match_score(id, name, description, category, q, words) >= 50,
        contains(category, q) ==> match_score(id, name, description, category, q, words) >= 20,
        contains(description, q) ==> match_score(id, name, description, category, q, words)
            >= 30,
        forall|k: int|
            0 <= k < words.len() && contains(id, #[trigger] words[k]) ==> match_score(
                id,
                name,
                description,
                category,
                q,
                words,
            ) >= 10,
        forall|k: int|
            0 <= k < words.len() && contains(description, #[trigger] words[k]) ==> match_score(
                id,
                name,
                description,
                category,
                q,
                words,
            ) >= 5,
        (!contains(id, q) && !contains(name, q) && !contains(category, q) && !contains(
            description,
            q,
        ) && forall|k: int|
            0 <= k < words.len() ==> !contains(id, #[trigger] words[k]) && !contains(
                description,
                words[k],
            )) ==> match_score(id, name, description, category, q, words) == 0,
{
    assert forall|k: int| 0 <= k < words.len() && contains(id, #[trigger] words[k]) implies
        word_points(id, description, words) >= 10 by {
        lemma_word_points_member(id, description, words, k);
    }
    assert forall|k: int| 0 <= k < words.len() && contains(description, #[trigger] words[k])
        implies word_points(id, description, words) >= 5 by {
        lemma_word_points_member(id, description, words, k);
    }
    lemma_prefix_occurs(id, q);
    lemma_prefix_occurs(name, q);
    lemma_prefix_occurs(category, q);
    if forall|k: int|
        0 <= k < words.len() ==> !contains(id, #[trigger] words[k]) && !contains(
            description,
            words[k],
        ) {
        lemma_word_points_none(id, description, words);
    }
}

/// A sequence occurs in itself and in what it is a prefix of.
proof fn lemma_prefix_occurs(s: Seq<char>, p: Seq<char>)
    ensures
        (s == p || starts_with(s, p)) ==> contains(s, p),
{
    if s == p {
        assert(s.subrange(0, p.len() as int) =~= p);
        assert(occurs_at(s, p, 0));
    } else if starts_with(s, p) {
        assert(occurs_at(s, p, 0));
    }
}

/// Against the empty query (which has no words), a skill whose lowercased id,
/// name and category are non-empty scores 80 + 70 + 20 + 30 = 200: the empty
/// query is a proper prefix of the id and of the name, and it occurs in the
/// category and in the description.
pub proof fn lemma_empty_query_score(
    id: Seq<char>,
    name: Seq<char>,
    description: Seq<char>,
    category: Seq<char>,
)
    requires
        id.len() > 0,
        name.len() > 0,
        category.len() > 0,
    ensures
        match_score(id, name, description, category, Seq::empty(), Seq::empty()) == 200,
{
    let e = Seq::<char>::empty();
    assert(id.subrange(0, 0) =~= e);
    assert(name.subrange(0, 0) =~= e);
    assert(category.subrange(0, 0) =~= e);
    assert(description.subrange(0, 0) =~= e);
    assert(occurs_at(id, e, 0));
    assert(occurs_at(name, e, 0));
    assert(occurs_at(category, e, 0));
    assert(occurs_at(description, e, 0));
    assert(id != e && name != e && category != e) by {
        assert(id.len() != e.len());
        assert(name.len() != e.len());
        assert(category.len() != e.len());
    }
}

/// The natural-number contents of a sequence of scores.
pub open spec fn score_values(s: Seq<u128>) -> Seq<nat> {
    s.map_values(|x: u128| x as nat)
}

/// The integer contents of a sequence of positions.
pub open spec fn positions(s: Seq<usize>) -> Seq<int> {
    s.map_values(|x: usize| x as int)
}

/// Skill `i` is listed before skill `j`: higher score first, then smaller id,
/// then (for equal ids) the one that comes first in the index.
pub open spec fn ranks_before(ids: Seq<Seq<char>>, scores: Seq<nat>, i: int, j: int) -> bool {
    ||| scores[i] > scores[j]
    ||| scores[i] == scores[j] && lex_less(ids[i], ids[j])
    ||| scores[i] == scores[j] && ids[i] == ids[j] && i < j
}

/// `r` lists exactly the skills with a positive score, each once, in rank order.
pub open spec fn is_ranking(ids: Seq<Seq<char>>, scores: Seq<nat>, r: Seq<int>) -> bool {
    &&& forall|k: int| 0 <= k < r.len() ==> 0 <= #[trigger] r[k] < scores.len() && scores[r[k]] > 0
    &&& forall|i: int| 0 <= i < scores.len() && scores[i] > 0 ==> #[trigger] r.contains(i)
    &&& forall|k: int, l: int| 0 <= k < l < r.len() ==> ranks_before(ids, scores, r[k], r[l])
}

proof fn lemma_ranks_before_transitive(
    ids: Seq<Seq<char>>,
    scores: Seq<nat>,
    a: int,
    b: int,
    c: int,
)
    requires
        ranks_before(ids, scores, a, b),
        ranks_before(ids, scores, b, c),
    ensures
        ranks_before(ids, scores, a, c),
{
    if scores[a] == scores[b] && scores[b] == scores[c] {
        if lex_less(ids[a], ids[b]) && lex_less(ids[b], ids[c]) {
            lemma_lex_less_transitive(ids[a], ids[b], ids[c]);
        }
    }
}

proof fn lemma_ranks_before_total(ids: Seq<Seq<char>>, scores: Seq<nat>, a: int, b: int)
    requires
        a != b,
    ensures
        ranks_before(ids, scores, a, b) || ranks_before(ids, scores, b, a),
{
    if ids[a] != ids[b] {
        lemma_lex_less_total(ids[a], ids[b]);
    }
}

proof fn lemma_ranks_before_asymmetric(ids: Seq<Seq<char>>, scores: Seq<nat>, a: int, b: int)
    ensures
        !(ranks_before(ids, scores, a, b) && ranks_before(ids, scores, b, a)),
{
    lemma_lex_less_asymmetric(ids[a], ids[b]);
    lemma_lex_less_irreflexive(ids[a]);
    if ids[a] == ids[b] {
        assert(!lex_less(ids[a], ids[b]));
    }
}

/// `r` lists every one of the skills whose ids are `ids`, each before those
/// with a larger id, and equal ids in index order.
pub open spec fn lists_all_by_id(ids: Seq<Seq<char>>, r: Seq<int>) -> bool {
    &&& forall|i: int| 0 <= i < ids.len() ==> #[trigger] r.contains(i)
    &&& forall|k: int| 0 <= k < r.len() ==> 0 <= #[trigger] r[k] < ids.len()
    &&& forall|k: int, l: int|
        0 <= k < l < r.len() ==> (lex_less(ids[r[k]], ids[r[l]]) || (ids[r[k]] == ids[r[l]]
            && r[k] < r[l]))
}

/// When every skill has the same positive score, a ranking lists all of them,
/// by id, and equal ids in index order.
pub proof fn lemma_equal_scores_by_id(ids: Seq<Seq<char>>, scores: Seq<nat>, r: Seq<int>, s: nat)
    requires
        ids.len() == scores.len(),
        s > 0,
        forall|i: int| 0 <= i < scores.len() ==> scores[i] == s,
        is_ranking(ids, scores, r),
    ensures
        lists_all_by_id(ids, r),
{
    assert forall|i: int| 0 <= i < ids.len() implies #[trigger] r.contains(i) by {
        assert(scores[i] > 0);
    }
    assert forall|k: int, l: int| 0 <= k < l < r.len() implies (lex_less(ids[r[k]], ids[r[l]]) || (
    ids[r[k]] == ids[r[l]] && r[k] < r[l])) by {
        assert(ranks_before(ids, scores, r[k], r[l]));
        assert(0 <= r[k] < scores.len() && 0 <= r[l] < scores.len());
        assert(scores[r[k]] == scores[r[l]]);
    }
}

/// A ranking lists higher scores first; among equal scores, smaller ids
/// first; among equal ids, earlier positions first. Each skill appears once.
pub proof fn lemma_ranking_order(ids: Seq<Seq<char>>, scores: Seq<nat>, r: Seq<int>)
    requires
        is_ranking(ids, scores, r),
    ensures
        forall|k: int, l: int|
            #![trigger r[k], r[l]]
            0 <= k < l < r.len() ==> {
                &&& scores[r[k]] >= scores[r[l]]
                &&& scores[r[k]] == scores[r[l]] ==> (lex_less(ids[r[k]], ids[r[l]]) || (ids[r[k]]
                    == ids[r[l]] && r[k] < r[l]))
                &&& r[k] != r[l]
            },
{
    assert forall|k: int, l: int| #![trigger r[k], r[l]] 0 <= k < l < r.len() implies {
        &&& scores[r[k]] >= scores[r[l]]
        &&& scores[r[k]] == scores[r[l]] ==> (lex_less(ids[r[k]], ids[r[l]]) || (ids[r[k]]
            == ids[r[l]] && r[k] < r[l]))
        &&& r[k] != r[l]
    } by {
        assert(ranks_before(ids, scores, r[k], r[l]));
        lemma_lex_less_irreflexive(ids[r[k]]);
    }
}

/// Two sequences that both list the positive-score skills in rank order are
/// the same sequence: the search order is fully determined by the scores and ids.
pub proof fn lemma_ranking_unique(
    ids: Seq<Seq<char>>,
    scores: Seq<nat>,
    r1: Seq<int>,
    r2: Seq<int>,
)
    requires
        is_ranking(ids, scores, r1),
        is_ranking(ids, scores, r2),
    ensures
        r1 == r2,
{
    lemma_same_members_same_order(ids, scores, r1, r2);
}

/// Both sequences are strictly ordered by `ranks_before`.
spec fn rank_sorted(ids: Seq<Seq<char>>, scores: Seq<nat>, r: Seq<int>) -> bool {
    forall|k: int, l: int| 0 <= k < l < r.len() ==> ranks_before(ids, scores, r[k], r[l])
}

proof fn lemma_same_members_same_order(
    ids: Seq<Seq<char>>,
    scores: Seq<nat>,
    r1: Seq<int>,
    r2: Seq<int>,
)
    requires
        rank_sorted(ids, scores, r1),
        rank_sorted(ids, scores, r2),
        forall|x: int| r1.contains(x) <==> r2.contains(x),
    ensures
        r1 == r2,
    decreases r1.len(),
{
    if r1.len() == 0 {
        if r2.len() > 0 {
            assert(r2.contains(r2[0]));
        }
        assert(r1 =~= r2);
    } else {
        assert(r1.contains(r1[0]));
        let j = choose|j: int| 0 <= j < r2.len() && r2[j] == r1[0];
        assert(r2.contains(r2[0]));
        let m = choose|m: int| 0 <= m < r1.len() && r1[m] == r2[0];
        if j != 0 {
            // r2[0] comes before r2[j] == r1[0], and r1[0] comes before r1[m] == r2[0]
            assert(ranks_before(ids, scores, r2[0], r2[j]));
            if m == 0 {
                lemma_ranks_before_asymmetric(ids, scores, r2[0], r2[0]);
            } else {
                assert(ranks_before(ids, scores, r1[0], r1[m]));
                lemma_ranks_before_asymmetric(ids, scores, r1[0], r2[0]);
            }
        }
        let t1 = r1.drop_first();
        let t2 = r2.drop_first();
        assert forall|x: int| t1.contains(x) <==> t2.contains(x) by {
            if t1.contains(x) {
                let a = choose|a: int| 0 <= a < t1.len() && t1[a] == x;
                assert(r1[a + 1] == x);
                assert(r1.contains(x));
                let b = choose|b: int| 0 <= b < r2.len() && r2[b] == x;
                if b == 0 {
                    assert(ranks_before(ids, scores, r1[0], r1[a + 1]));
                    lemma_ranks_before_asymmetric(ids, scores, r1[0], r1[0]);
                }
                assert(t2[b - 1] == x);
            }
            if t2.contains(x) {
                let a = choose|a: int| 0 <= a < t2.len() && t2[a] == x;
                assert(r2[a + 1] == x);
                assert(r2.contains(x));
                let b = choose|b: int| 0 <= b < r1.len() && r1[b] == x;
                if b == 0 {
                    assert(ranks_before(ids, scores, r2[0], r2[a + 1]));
                    lemma_ranks_before_asymmetric(ids, scores, r2[0], r2[0]);
                }
                assert(t1[b - 1] == x);
            }
        }
        assert(rank_sorted(ids, scores, t1)) by {
            assert forall|k: int, l: int| 0 <= k < l < t1.len() implies ranks_before(
                ids,
                scores,
                t1[k],
                t1[l],
            ) by {
                assert(t1[k] == r1[k + 1] && t1[l] == r1[l + 1]);
            }
        }
        assert(rank_sorted(ids, scores, t2)) by {
            assert forall|k: int, l: int| 0 <= k < l < t2.len() implies ranks_before(
                ids,
                scores,
                t2[k],
                t2[l],
            ) by {
                assert(t2[k] == r2[k + 1] && t2[l] == r2[l + 1]);
            }
        }
        lemma_same_members_same_order(ids, scores, t1, t2);
        assert(r1 =~= seq![r1[0]] + t1);
        assert(r2 =~= seq![r2[0]] + t2);
    }
}

/// `i` is listed before `j`.
fn ranks_before_exec(ids: &Vec<Vec<char>>, scores: &Vec<u128>, i: usize, j: usize) -> (r: bool)
    requires
        i < ids.len(),
        j < ids.len(),
        ids.len() == scores.len(),
    ensures
        r == ranks_before(views(ids@), score_values(scores@), i as int, j as int),
{
    if scores[i] > scores[j] {
        true
    } else if scores[i] < scores[j] {
        false
    } else if lex_less_exec(&ids[i], &ids[j]) {
        true
    } else {
        chars_equal(&ids[i], &ids[j]) && i < j
    }
}

/// The positions of the skills with a positive score, ordered by score (higher
/// first), then id, then position.
pub fn rank_by_score(ids: &Vec<Vec<char>>, scores: &Vec<u128>) -> (res: Vec<usize>)
    requires
        ids.len() == scores.len(),
    ensures
        is_ranking(views(ids@), score_values(scores@), positions(res@)),
{
    let ghost vids = views(ids@);
    let ghost vs = score_values(scores@);
    let n = scores.len();
    let mut res: Vec<usize> = Vec::new();
    let mut i: usize = 0;
    while i < n
        invariant
            n == scores.len(),
            n == ids.len(),
            vids == views(ids@),
            vs == score_values(scores@),
            i <= n,
            forall|k: int|
                0 <= k < res.len() ==> #[trigger] res@[k] < i && vs[res@[k] as int] > 0,
            forall|x: int| 0 <= x < i && vs[x] > 0 ==> #[trigger] positions(res@).contains(x),
            rank_sorted(vids, vs, positions(res@)),
        decreases n - i,
    {
        if scores[i] > 0 {
            let mut p: usize = 0;
            while p < res.len()
                invariant
                    n == scores.len(),
                    n == ids.len(),
                    vids == views(ids@),
                    vs == score_values(scores@),
                    i < n,
                    p <= res.len(),
                    forall|k: int| 0 <= k < res.len() ==> #[trigger] res@[k] < i,
                    forall|k: int|
                        0 <= k < p ==> !ranks_before(vids, vs, i as int, #[trigger] res@[k] as int),
                ensures
                    p <= res.len(),
                    forall|k: int|
                        0 <= k < p ==> !ranks_before(vids, vs, i as int, #[trigger] res@[k] as int),
                    p < res.len() ==> ranks_before(vids, vs, i as int, res@[p as int] as int),
                decreases res.len() - p,
            {
                if ranks_before_exec(ids, scores, i, res[p]) {
                    break;
                }
                p += 1;
            }
            let ghost old_pos = positions(res@);
            res.insert(p, i);
            proof {
                let np = positions(res@);
                assert(np =~= old_pos.insert(p as int, i as int));
                assert forall|k: int, l: int| 0 <= k < l < np.len() implies ranks_before(
                    vids,
                    vs,
                    np[k],
                    np[l],
                ) by {
                    if l < p {
                        assert(np[k] == old_pos[k] && np[l] == old_pos[l]);
                    } else if l == p {
                        assert(np[k] == old_pos[k]);
                        assert(old_pos[k] != i);
                        lemma_ranks_before_total(vids, vs, i as int, old_pos[k]);
                    } else if k == p {
                        assert(np[l] == old_pos[l - 1]);
                        if l - 1 > p {
                            lemma_ranks_before_transitive(
                                vids,
                                vs,
                                i as int,
                                old_pos[p as int],
                                old_pos[l - 1],
                            );
                        }
                    } else if k < p {
                        assert(np[k] == old_pos[k] && np[l] == old_pos[l - 1]);
                    } else {
                        assert(np[k] == old_pos[k - 1] && np[l] == old_pos[l - 1]);
                    }
                }
                assert forall|x: int| 0 <= x < i + 1 && vs[x] > 0 implies #[trigger] np.contains(
                    x,
                ) by {
                    if x == i {
                        assert(np[p as int] == x);
                    } else {
                        assert(old_pos.contains(x));
                        let k = choose|k: int| 0 <= k < old_pos.len() && old_pos[k] == x;
                        if k < p {
                            assert(np[k] == x);
                        } else {
                            assert(np[k + 1] == x);
                        }
                    }
                }
                assert forall|k: int| 0 <= k < res.len() implies #[trigger] res@[k] < i + 1
                    && vs[res@[k] as int] > 0 by {
                    if k < p {
                        assert(res@[k] as int == old_pos[k]);
                    } else if k > p {
                        assert(res@[k] as int == old_pos[k - 1]);
                    }
                }
            }
        } else {
            proof {
                assert forall|x: int| 0 <= x < i + 1 && vs[x] > 0 implies #[trigger] positions(
                    res@,
                ).contains(x) by {
                    assert(x != i);
                }
            }
        }
        i += 1;
    }
    proof {
        let r = positions(res@);
        assert forall|k: int| 0 <= k < r.len() implies 0 <= #[trigger] r[k] < vs.len() && vs[r[k]]
            > 0 by {
            assert(r[k] == res@[k] as int);
        }
    }
    res
}

} // verus!
