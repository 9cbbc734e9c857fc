//! The skill catalog: its entries, the aliases that lead to them, and the
//! markdown of each skill; lookup, listing by category, search and suggestions.
use vstd::prelude::*;

use crate::keyed::{collect_pairs, distinct_keys, lookup, lookup_exec, pair_views};
use crate::ranking::{
    is_ranking, lemma_empty_query_score, lemma_equal_scores_by_id, lemma_match_score_matches,
    lemma_ranking_unique, lists_all_by_id, match_score, match_score_exec, positions, rank_by_score,
    score_values,
};
use crate::text::{
    chars_equal, chars_of, contains, edit_distance, extend_chars, extend_str, lowercase_chars, split_whitespace,
    starts_with, starts_with_exec, string_of, to_lowercase, whitespace_words, lemma_lex_less_irreflexive, lemma_lex_less_total,
    lemma_lex_less_transitive, lex_less, lex_less_exec, lowercase_of, views,
};

verus! {

/// One skill of the catalog index.
#[derive(Debug, Clone)]
pub struct SkillEntry {
    pub id: String,
    pub path: String,
    pub category: String,
    pub name: String,
    pub description: String,
    pub risk: String,
    pub source: String,
    pub date_added: Option<String>,
}

/// The fields of a skill that a catalog listing shows.
#[derive(Debug)]
pub struct CatalogEntry<'a> {
    pub id: &'a str,
    pub category: &'a str,
    pub description: &'a str,
    pub risk: &'a str,
}

/// The catalog: skills in index order, aliases (alias, canonical id) and
/// markdown contents (id, markdown), each key at most once.
#[derive(Debug)]
pub struct Repository {
    skills: Vec<SkillEntry>,
    aliases: Vec<(String, String)>,
    contents: Vec<(String, String)>,
}

/// The id that `id` stands for: its canonical id if it is an alias, else itself.
pub open spec fn resolved_id(aliases: Seq<(Seq<char>, Seq<char>)>, id: Seq<char>) -> Seq<char> {
    match lookup(aliases, id) {
        Some(canonical) => canonical,
        None => id,
    }
}

/// The first skill whose id is `id`.
pub open spec fn find_skill(skills: Seq<SkillEntry>, id: Seq<char>) -> Option<SkillEntry>
    decreases skills.len(),
{
    if skills.len() == 0 {
        None
    } else if skills[0].id@ == id {
        Some(skills[0])
    } else {
        find_skill(skills.drop_first(), id)
    }
}

/// The skills whose category is `category`, in index order.
pub open spec fn in_category(skills: Seq<SkillEntry>, category: Seq<char>) -> Seq<SkillEntry>
    decreases skills.len(),
{
    if skills.len() == 0 {
        seq![]
    } else {
        let prev = in_category(skills.drop_last(), category);
        if skills.last().category@ == category {
            prev.push(skills.last())
        } else {
            prev
        }
    }
}

/// The entries behind a sequence of references.
pub open spec fn entries(refs: Seq<&SkillEntry>) -> Seq<SkillEntry> {
    refs.map_values(|r: &SkillEntry| *r)
}

/// The contents of a sequence of string slices.
pub open spec fn str_views(s: Seq<&str>) -> Seq<Seq<char>> {
    s.map_values(|x: &str| x@)
}

/// Each element comes strictly before the next in code-point order.
pub open spec fn strictly_sorted(s: Seq<Seq<char>>) -> bool {
    forall|k: int, l: int| 0 <= k < l < s.len() ==> lex_less(s[k], s[l])
}

/// Two strictly sorted sequences with the same elements are the same
/// sequence: the category listing is determined by the set of categories.
pub proof fn lemma_sorted_unique(a: Seq<Seq<char>>, b: Seq<Seq<char>>)
    requires
        strictly_sorted(a),
        strictly_sorted(b),
        forall|x: Seq<char>| a.contains(x) <==> b.contains(x),
    ensures
        a == b,
    decreases a.len(),
{
    if a.len() == 0 {
        if b.len() > 0 {
            assert(b.contains(b[0]));
        }
        assert(a =~= b);
    } else {
        assert(a.contains(a[0]));
        assert(b.contains(b[0]));
        let j = choose|j: int| 0 <= j < b.len() && b[j] == a[0];
        let m = choose|m: int| 0 <= m < a.len() && a[m] == b[0];
        if j != 0 {
            assert(lex_less(b[0], b[j]));
            if m == 0 {
                lemma_lex_less_irreflexive(b[0]);
            } else {
                assert(lex_less(a[0], a[m]));
                crate::text::lemma_lex_less_asymmetric(a[0], b[0]);
            }
        }
        let ta = a.drop_first();
        let tb = b.drop_first();
        assert forall|x: Seq<char>| ta.contains(x) <==> tb.contains(x) by {
            if ta.contains(x) {
                let p = choose|p: int| 0 <= p < ta.len() && ta[p] == x;
                assert(a[p + 1] == x);
                assert(a.contains(x));
                let q = choose|q: int| 0 <= q < b.len() && b[q] == x;
                if q == 0 {
                    assert(lex_less(a[0], a[p + 1]));
                    lemma_lex_less_irreflexive(a[0]);
                }
                assert(tb[q - 1] == x);
            }
            if tb.contains(x) {
                let p = choose|p: int| 0 <= p < tb.len() && tb[p] == x;
                assert(b[p + 1] == x);
                assert(b.contains(x));
                let q = choose|q: int| 0 <= q < a.len() && a[q] == x;
                if q == 0 {
                    assert(lex_less(b[0], b[p + 1]));
                    lemma_lex_less_irreflexive(b[0]);
                }
                assert(ta[q - 1] == x);
            }
        }
        assert(strictly_sorted(ta)) by {
            assert forall|k: int, l: int| 0 <= k < l < ta.len() implies lex_less(ta[k], ta[l]) by {
                assert(ta[k] == a[k + 1] && ta[l] == a[l + 1]);
            }
        }
        assert(strictly_sorted(tb)) by {
            assert forall|k: int, l: int| 0 <= k < l < tb.len() implies lex_less(tb[k], tb[l]) by {
                assert(tb[k] == b[k + 1] && tb[l] == b[l + 1]);
            }
        }
        lemma_sorted_unique(ta, tb);
        assert(a =~= seq![a[0]] + ta);
        assert(b =~= seq![b[0]] + tb);
    }
}

/// Some skill has category `c`.
pub open spec fn is_category(skills: Seq<SkillEntry>, c: Seq<char>) -> bool {
    exists|i: int| 0 <= i < skills.len() && #[trigger] skills[i].category@ == c
}

/// The position at which `c` belongs in the strictly sorted `names`.
fn insertion_point(names: &Vec<Vec<char>>, c: &Vec<char>) -> (p: usize)
    requires
        strictly_sorted(views(names@)),
    ensures
        p <= names.len(),
        forall|k: int| 0 <= k < p ==> lex_less(#[trigger] views(names@)[k], c@),
        p < names.len() ==> !lex_less(views(names@)[p as int], c@),
{
    let mut p: usize = 0;
    while p < names.len()
        invariant
            p <= names.len(),
            forall|k: int| 0 <= k < p ==> lex_less(#[trigger] views(names@)[k], c@),
        decreases names.len() - p,
    {
        if !lex_less_exec(&names[p], c) {
            return p;
        }
        p += 1;
    }
    p
}

/// Inserting `c` where it belongs keeps a strictly sorted sequence sorted.
proof fn lemma_insert_sorted(s: Seq<Seq<char>>, p: int, c: Seq<char>)
    requires
        strictly_sorted(s),
        0 <= p <= s.len(),
        forall|k: int| 0 <= k < p ==> lex_less(#[trigger] s[k], c),
        p < s.len() ==> lex_less(c, s[p]),
    ensures
        strictly_sorted(s.insert(p, c)),
{
    let t = s.insert(p, c);
    assert forall|k: int, l: int| 0 <= k < l < t.len() implies lex_less(t[k], t[l]) by {
        if l < p {
            assert(t[k] == s[k] && t[l] == s[l]);
        } else if l == p {
            assert(t[k] == s[k]);
        } else if k == p {
            assert(t[l] == s[l - 1]);
            if l - 1 > p {
                lemma_lex_less_transitive(c, s[p], s[l - 1]);
            }
        } else if k < p {
            assert(t[k] == s[k] && t[l] == s[l - 1]);
        } else {
            assert(t[k] == s[k - 1] && t[l] == s[l - 1]);
        }
    }
}

/// How well `e` matches `query`: its lowercased fields scored against the
/// lowercased query and the query's whitespace-separated words.
pub open spec fn skill_score(e: SkillEntry, query: Seq<char>) -> nat {
    let q = lowercase_of(query);
    match_score(
        lowercase_of(e.id@),
        lowercase_of(e.name@),
        lowercase_of(e.description@),
        lowercase_of(e.category@),
        q,
        whitespace_words(q),
    )
}

/// The score of every skill against `query`.
pub open spec fn scores_of(skills: Seq<SkillEntry>, query: Seq<char>) -> Seq<nat> {
    Seq::new(skills.len(), |i: int| skill_score(skills[i], query))
}

/// The ids of the skills.
pub open spec fn ids_of(skills: Seq<SkillEntry>) -> Seq<Seq<char>> {
    skills.map_values(|e: SkillEntry| e.id@)
}

/// Every skill has a non-empty id, name and category.
pub open spec fn fields_filled(skills: Seq<SkillEntry>) -> bool {
    forall|i: int|
        0 <= i < skills.len() ==> #[trigger] skills[i].id@.len() > 0 && skills[i].name@.len() > 0
            && skills[i].category@.len() > 0
}

/// `e` matches `query`: compared lowercased, the query occurs in the id, the
/// name, the category or the description, or one of the query's
/// whitespace-separated words occurs in the id or the description.
pub open spec fn matches_query(e: SkillEntry, query: Seq<char>) -> bool {
    let q = lowercase_of(query);
    let id = lowercase_of(e.id@);
    let description = lowercase_of(e.description@);
    ||| contains(id, q)
    ||| contains(lowercase_of(e.name@), q)
    ||| contains(lowercase_of(e.category@), q)
    ||| contains(description, q)
    ||| exists|k: int|
        0 <= k < whitespace_words(q).len() && (contains(id, #[trigger] whitespace_words(q)[k])
            || contains(description, whitespace_words(q)[k]))
}

/// Search lists exactly the skills that match the query: in any ranking of
/// the scores (the order `search` returns is one), a skill appears if and only
/// if it matches.
pub proof fn lemma_search_lists_matches(skills: Seq<SkillEntry>, query: Seq<char>, r: Seq<int>, i: int)
    requires
        is_ranking(ids_of(skills), scores_of(skills, query), r),
        0 <= i < skills.len(),
    ensures
        r.contains(i) <==> matches_query(skills[i], query),
{
    let e = skills[i];
    let q = lowercase_of(query);
    let words = whitespace_words(q);
    lemma_match_score_matches(
        lowercase_of(e.id@),
        lowercase_of(e.name@),
        lowercase_of(e.description@),
        lowercase_of(e.category@),
        q,
        words,
    );
    assert(scores_of(skills, query)[i] == skill_score(e, query));
    if matches_query(e, query) {
        if exists|k: int|
            0 <= k < words.len() && (contains(lowercase_of(e.id@), #[trigger] words[k])
                || contains(lowercase_of(e.description@), words[k])) {
            let k = choose|k: int|
                0 <= k < words.len() && (contains(lowercase_of(e.id@), #[trigger] words[k])
                    || contains(lowercase_of(e.description@), words[k]));
            assert(contains(lowercase_of(e.id@), words[k]) || contains(
                lowercase_of(e.description@),
                words[k],
            ));
        }
        assert(skill_score(e, query) > 0);
    }
    if r.contains(i) {
        let k = choose|k: int| 0 <= k < r.len() && r[k] == i;
        assert(scores_of(skills, query)[r[k]] > 0);
    }
}

/// The positions of the skills that match `query`, in the order search lists
/// them (there is exactly one such order: see `lemma_ranking_unique`).
pub open spec fn search_order(skills: Seq<SkillEntry>, query: Seq<char>) -> Seq<int> {
    choose|r: Seq<int>| is_ranking(ids_of(skills), scores_of(skills, query), r)
}

/// The number of skills in each of the categories `cats`, added up.
pub open spec fn category_total(skills: Seq<SkillEntry>, cats: Seq<Seq<char>>) -> nat
    decreases cats.len(),
{
    if cats.len() == 0 {
        0
    } else {
        category_total(skills, cats.drop_last()) + in_category(skills, cats.last()).len()
    }
}

/// How many times `c` occurs in `cats`.
pub open spec fn occurrences(cats: Seq<Seq<char>>, c: Seq<char>) -> nat
    decreases cats.len(),
{
    if cats.len() == 0 {
        0
    } else {
        occurrences(cats.drop_last(), c) + if cats.last() == c {
            1nat
        } else {
            0nat
        }
    }
}

/// No element occurs twice.
pub open spec fn all_distinct(cats: Seq<Seq<char>>) -> bool {
    forall|k: int, l: int| 0 <= k < l < cats.len() ==> cats[k] != cats[l]
}

proof fn lemma_occurrences_distinct(cats: Seq<Seq<char>>, c: Seq<char>)
    requires
        all_distinct(cats),
    ensures
        occurrences(cats, c) == if cats.contains(c) {
            1nat
        } else {
            0nat
        },
    decreases cats.len(),
{
    if cats.len() > 0 {
        let p = cats.drop_last();
        assert(all_distinct(p)) by {
            assert forall|k: int, l: int| 0 <= k < l < p.len() implies p[k] != p[l] by {
                assert(p[k] == cats[k] && p[l] == cats[l]);
            }
        }
        lemma_occurrences_distinct(p, c);
        if cats.last() == c {
            if p.contains(c) {
                let k = choose|k: int| 0 <= k < p.len() && p[k] == c;
                assert(cats[k] == c);
            }
            assert(cats.contains(c)) by {
                assert(cats[cats.len() - 1] == c);
            }
        } else {
            if cats.contains(c) {
                let k = choose|k: int| 0 <= k < cats.len() && cats[k] == c;
                assert(p[k] == c);
            }
            if p.contains(c) {
                let k = choose|k: int| 0 <= k < p.len() && p[k] == c;
                assert(cats[k] == c);
            }
        }
    }
}

proof fn lemma_category_total_push(skills: Seq<SkillEntry>, cats: Seq<Seq<char>>)
    requires
        skills.len() > 0,
    ensures
        category_total(skills, cats) == category_total(skills.drop_last(), cats) + occurrences(
            cats,
            skills.last().category@,
        ),
    decreases cats.len(),
{
    if cats.len() > 0 {
        lemma_category_total_push(skills, cats.drop_last());
    }
}

proof fn lemma_category_count(skills: Seq<SkillEntry>, cats: Seq<Seq<char>>)
    requires
        all_distinct(cats),
        forall|c: Seq<char>| is_category(skills, c) ==> cats.contains(c),
    ensures
        category_total(skills, cats) == skills.len(),
    decreases skills.len(),
{
    if skills.len() == 0 {
        lemma_category_total_empty(skills, cats);
    } else {
        let p = skills.drop_last();
        assert forall|c: Seq<char>| is_category(p, c) implies cats.contains(c) by {
            let i = choose|i: int| 0 <= i < p.len() && #[trigger] p[i].category@ == c;
            assert(skills[i] == p[i]);
            assert(is_category(skills, c));
        }
        lemma_category_count(p, cats);
        lemma_category_total_push(skills, cats);
        assert(is_category(skills, skills.last().category@)) by {
            assert(skills[skills.len() - 1].category@ == skills.last().category@);
        }
        lemma_occurrences_distinct(cats, skills.last().category@);
    }
}

proof fn lemma_category_total_empty(skills: Seq<SkillEntry>, cats: Seq<Seq<char>>)
    requires
        skills.len() == 0,
    ensures
        category_total(skills, cats) == 0,
    decreases cats.len(),
{
    if cats.len() > 0 {
        lemma_category_total_empty(skills, cats.drop_last());
    }
}

/// A name that is no skill's category lists no skill.
pub proof fn lemma_no_such_category(skills: Seq<SkillEntry>, c: Seq<char>)
    requires
        !is_category(skills, c),
    ensures
        in_category(skills, c).len() == 0,
    decreases skills.len(),
{
    if skills.len() > 0 {
        let p = skills.drop_last();
        if is_category(p, c) {
            let i = choose|i: int| 0 <= i < p.len() && #[trigger] p[i].category@ == c;
            assert(skills[i] == p[i]);
        }
        assert(skills[skills.len() - 1] == skills.last());
        lemma_no_such_category(p, c);
    }
}

/// The categories partition the skills: listing the skills of each category
/// that `categories` gives lists as many skills as there are, and a name that
/// is not among those categories lists none.
pub proof fn lemma_categories_partition(skills: Seq<SkillEntry>, cats: Seq<Seq<char>>)
    requires
        strictly_sorted(cats),
        forall|k: int| 0 <= k < cats.len() ==> is_category(skills, #[trigger] cats[k]),
        forall|c: Seq<char>| is_category(skills, c) ==> cats.contains(c),
    ensures
        category_total(skills, cats) == skills.len(),
        forall|c: Seq<char>| !cats.contains(c) ==> #[trigger] in_category(skills, c).len() == 0,
{
    assert(all_distinct(cats)) by {
        assert forall|k: int, l: int| 0 <= k < l < cats.len() implies cats[k] != cats[l] by {
            lemma_lex_less_irreflexive(cats[k]);
        }
    }
    lemma_category_count(skills, cats);
    assert forall|c: Seq<char>| !cats.contains(c) implies #[trigger] in_category(skills, c).len()
        == 0 by {
        lemma_no_such_category(skills, c);
    }
}

/// An alias leads to the same skill and the same markdown as the canonical id
/// it names (when that id is not an alias itself).
pub proof fn lemma_alias_same_skill(repo: Repository, alias: Seq<char>, canonical: Seq<char>)
    requires
        lookup(repo.aliases(), alias) == Some(canonical),
        lookup(repo.aliases(), canonical) is None,
    ensures
        find_skill(repo.skills(), resolved_id(repo.aliases(), alias)) == find_skill(
            repo.skills(),
            canonical,
        ),
        lookup(repo.contents(), resolved_id(repo.aliases(), alias)) == lookup(
            repo.contents(),
            canonical,
        ),
        resolved_id(repo.aliases(), alias) == resolved_id(repo.aliases(), canonical),
{
}

/// An alias that `id` is a prefix of, or that is a prefix of `id`.
pub open spec fn alias_matches(alias: Seq<char>, id: Seq<char>) -> bool {
    starts_with(alias, id) || starts_with(id, alias)
}

/// The suggestion the first matching alias gives: its canonical id when it is
/// `id` itself, else the alias.
pub open spec fn alias_suggestion(aliases: Seq<(Seq<char>, Seq<char>)>, id: Seq<char>) -> Option<
    Seq<char>,
>
    decreases aliases.len(),
{
    if aliases.len() == 0 {
        None
    } else if alias_matches(aliases[0].0, id) {
        Some(
            if aliases[0].0 == id {
                aliases[0].1
            } else {
                aliases[0].0
            },
        )
    } else {
        alias_suggestion(aliases.drop_first(), id)
    }
}

/// Largest edit distance at which a skill id is still suggested.
pub open spec fn max_suggestion_distance() -> nat {
    5
}

/// The edit distance between the lowercased `id` and each lowercased skill id.
pub open spec fn distances_of(skills: Seq<SkillEntry>, id: Seq<char>) -> Seq<nat> {
    Seq::new(skills.len(), |i: int| edit_distance(lowercase_of(id), lowercase_of(skills[i].id@)))
}

/// `(d1, id1)` comes before `(d2, id2)`: smaller distance, then smaller id.
pub open spec fn closer(d1: nat, id1: Seq<char>, d2: nat, id2: Seq<char>) -> bool {
    d1 < d2 || (d1 == d2 && lex_less(id1, id2))
}

/// Skill `i` is close enough to be suggested.
pub open spec fn near(dist: Seq<nat>, i: int) -> bool {
    dist[i] <= max_suggestion_distance()
}

/// Skill `i` is close enough, and no close-enough skill comes before it.
pub open spec fn is_nearest(ids: Seq<Seq<char>>, dist: Seq<nat>, i: int) -> bool {
    &&& 0 <= i < ids.len()
    &&& near(dist, i)
    &&& forall|j: int|
        0 <= j < ids.len() && near(dist, j) ==> !closer(dist[j], ids[j], dist[i], ids[i])
}

/// Some skill is close enough to be suggested.
pub open spec fn has_near(ids: Seq<Seq<char>>, dist: Seq<nat>) -> bool {
    exists|i: int| 0 <= i < ids.len() && #[trigger] near(dist, i)
}

/// The id suggested among the skills: that of a nearest skill (all nearest
/// skills have the same id: see `lemma_nearest_id_unique`).
pub open spec fn nearest_id(ids: Seq<Seq<char>>, dist: Seq<nat>) -> Option<Seq<char>> {
    if has_near(ids, dist) {
        Some(ids[choose|i: int| is_nearest(ids, dist, i)])
    } else {
        None
    }
}

/// What is suggested for an unknown `id`: an alias match first, else the
/// nearest skill id.
pub open spec fn suggestion(
    skills: Seq<SkillEntry>,
    aliases: Seq<(Seq<char>, Seq<char>)>,
    id: Seq<char>,
) -> Option<Seq<char>> {
    match alias_suggestion(aliases, id) {
        Some(a) => Some(a),
        None => nearest_id(ids_of(skills), distances_of(skills, id)),
    }
}

/// The error message for an unknown skill id.
pub open spec fn not_found_message(id: Seq<char>, suggestion: Option<Seq<char>>) -> Seq<char> {
    "Skill not found: "@ + id + match suggestion {
        Some(s) => "\nDid you mean: "@ + s + "?"@,
        None => Seq::<char>::empty(),
    }
}

proof fn lemma_closer_transitive(
    d1: nat,
    a: Seq<char>,
    d2: nat,
    b: Seq<char>,
    d3: nat,
    c: Seq<char>,
)
    requires
        closer(d1, a, d2, b),
        closer(d2, b, d3, c),
    ensures
        closer(d1, a, d3, c),
{
    if d1 == d2 && d2 == d3 {
        lemma_lex_less_transitive(a, b, c);
    }
}

/// All nearest skills have the same id, so the suggestion is determined.
pub proof fn lemma_nearest_id_unique(ids: Seq<Seq<char>>, dist: Seq<nat>, i: int, j: int)
    requires
        is_nearest(ids, dist, i),
        is_nearest(ids, dist, j),
    ensures
        ids[i] == ids[j],
{
    if ids[i] != ids[j] {
        lemma_lex_less_total(ids[i], ids[j]);
    }
}

/// Whenever some skill is close enough, a nearest one exists (so `nearest_id`
/// picks the id of a nearest skill).
pub proof fn lemma_nearest_exists(ids: Seq<Seq<char>>, dist: Seq<nat>)
    requires
        ids.len() == dist.len(),
        has_near(ids, dist),
    ensures
        exists|i: int| is_nearest(ids, dist, i),
{
    let w = choose|i: int| 0 <= i < ids.len() && #[trigger] near(dist, i);
    let i = lemma_nearest_in_prefix(ids, dist, ids.len() as int, w);
    assert(is_nearest(ids, dist, i));
}

/// Among the first `n` skills, one that is close enough and that no close-enough
/// skill among them comes before.
proof fn lemma_nearest_in_prefix(ids: Seq<Seq<char>>, dist: Seq<nat>, n: int, w: int) -> (i: int)
    requires
        ids.len() == dist.len(),
        0 <= w < n <= ids.len(),
        near(dist, w),
    ensures
        0 <= i < n,
        near(dist, i),
        forall|j: int| 0 <= j < n && near(dist, j) ==> !closer(dist[j], ids[j], dist[i], ids[i]),
    decreases n,
{
    if w == n - 1 && (forall|j: int| 0 <= j < n - 1 ==> !near(dist, j)) {
        lemma_lex_less_irreflexive(ids[w]);
        w
    } else {
        let w2 = if w < n - 1 {
            w
        } else {
            choose|j: int| 0 <= j < n - 1 && near(dist, j)
        };
        let b = lemma_nearest_in_prefix(ids, dist, n - 1, w2);
        let last = n - 1;
        if near(dist, last) && closer(dist[last], ids[last], dist[b], ids[b]) {
            assert forall|j: int| 0 <= j < n && near(dist, j) implies !closer(
                dist[j],
                ids[j],
                dist[last],
                ids[last],
            ) by {
                if j == last {
                    lemma_lex_less_irreflexive(ids[j]);
                } else if closer(dist[j], ids[j], dist[last], ids[last]) {
                    lemma_closer_transitive(
                        dist[j],
                        ids[j],
                        dist[last],
                        ids[last],
                        dist[b],
                        ids[b],
                    );
                }
            }
            last
        } else {
            b
        }
    }
}

/// `strsim::levenshtein`: the least number of single-character insertions,
/// deletions and substitutions that turn `a` into `b`, counted over `char`s.
#[verifier::external_body]
fn levenshtein(a: &str, b: &str) -> (d: usize)
    ensures
        d == edit_distance(a@, b@),
{
    strsim::levenshtein(a, b)
}

/// The position of a nearest skill (smallest distance, then smallest id, then
/// first in the index), if any skill is within the suggestion distance.
pub fn closest_skill(ids: &Vec<Vec<char>>, distances: &Vec<usize>) -> (res: Option<usize>)
    requires
        ids.len() == distances.len(),
    ensures
        match res {
            Some(i) => is_nearest(views(ids@), distances@.map_values(|d: usize| d as nat), i as int),
            None => !has_near(views(ids@), distances@.map_values(|d: usize| d as nat)),
        },
{
    let ghost vids = views(ids@);
    let ghost dist = distances@.map_values(|d: usize| d as nat);
    let mut best: Option<usize> = None;
    let mut i: usize = 0;
    while i < ids.len()
        invariant
            ids.len() == distances.len(),
            vids == views(ids@),
            dist == distances@.map_values(|d: usize| d as nat),
            i <= ids.len(),
            match best {
                Some(b) => {
                    &&& b < i
                    &&& near(dist, b as int)
                    &&& forall|j: int|
                        0 <= j < i && near(dist, j) ==> !closer(
                            dist[j],
                            vids[j],
                            dist[b as int],
                            vids[b as int],
                        )
                },
                None => forall|j: int| 0 <= j < i ==> !near(dist, j),
            },
        decreases ids.len() - i,
    {
        if distances[i] <= 5 {
            match best {
                None => {
                    proof {
                        lemma_lex_less_irreflexive(vids[i as int]);
                    }
                    best = Some(i);
                },
                Some(b) => {
                    let better = distances[i] < distances[b] || (distances[i] == distances[b]
                        && lex_less_exec(&ids[i], &ids[b]));
                    if better {
                        proof {
                            assert forall|j: int|
                                0 <= j < i + 1 && near(dist, j) implies !closer(
                                dist[j],
                                vids[j],
                                dist[i as int],
                                vids[i as int],
                            ) by {
                                if j == i {
                                    lemma_lex_less_irreflexive(vids[j]);
                                } else if closer(dist[j], vids[j], dist[i as int], vids[i as int]) {
                                    lemma_closer_transitive(
                                        dist[j],
                                        vids[j],
                                        dist[i as int],
                                        vids[i as int],
                                        dist[b as int],
                                        vids[b as int],
                                    );
                                }
                            }
                        }
                        best = Some(i);
                    }
                },
            }
        }
        i += 1;
    }
    proof {
        if best is None {
            assert forall|j: int| 0 <= j < vids.len() implies !near(dist, j) by {}
        }
    }
    best
}
/// A description as a row shows it: up to 60 characters as they are, a
/// longer one cut to its first 57 characters followed by `...`.
pub open spec fn row_description(d: Seq<char>) -> Seq<char> {
    if d.len() <= 60 {
        d
    } else {
        d.take(57) + seq!['.', '.', '.']
    }
}

/// A search result row: id, category, shortened description and risk, separated by tabs.
pub open spec fn skill_row(
    id: Seq<char>,
    category: Seq<char>,
    description: Seq<char>,
    risk: Seq<char>,
) -> Seq<char> {
    id + seq!['\t'] + category + seq!['\t'] + row_description(description) + seq!['\t'] + risk
}

/// Formats one search result row.
pub fn format_skill_row(id: &str, category: &str, description: &str, risk: &str) -> (res: String)
    ensures
        res@ == skill_row(id@, category@, description@, risk@),
{
    let mut row: Vec<char> = Vec::new();
    extend_str(&mut row, id);
    row.push('\t');
    extend_str(&mut row, category);
    row.push('\t');
    let desc = chars_of(description);
    let ghost before = row@;
    if desc.len() <= 60 {
        extend_chars(&mut row, &desc);
    } else {
        let mut k: usize = 0;
        while k < 57
            invariant
                k <= 57,
                desc.len() > 60,
                row@ == before + desc@.take(k as int),
            decreases 57 - k,
        {
            row.push(desc[k]);
            assert(desc@.take(k + 1) =~= desc@.take(k as int).push(desc@[k as int]));
            k += 1;
        }
        row.push('.');
        row.push('.');
        row.push('.');
    }
    row.push('\t');
    extend_str(&mut row, risk);
    assert(row@ =~= skill_row(id@, category@, description@, risk@));
    string_of(&row)
}

impl Repository {
    #[verifier::type_invariant]
    spec fn keys_unique(self) -> bool {
        &&& distinct_keys(pair_views(self.aliases@))
        &&& distinct_keys(pair_views(self.contents@))
    }

    /// The skills, in index order.
    pub closed spec fn skills(self) -> Seq<SkillEntry> {
        self.skills@
    }

    /// The (alias, canonical id) pairs; no alias occurs twice.
    pub closed spec fn aliases(self) -> Seq<(Seq<char>, Seq<char>)> {
        pair_views(self.aliases@)
    }

    /// The (id, markdown) pairs; no id occurs twice.
    pub closed spec fn contents(self) -> Seq<(Seq<char>, Seq<char>)> {
        pair_views(self.contents@)
    }

    /// Builds a catalog. As when the pairs are collected into a map, a later
    /// pair for the same alias or id replaces an earlier one.
    pub fn new(
        skills: Vec<SkillEntry>,
        aliases: Vec<(String, String)>,
        contents: Vec<(String, String)>,
    ) -> (res: Repository)
        ensures
            res.skills() == skills@,
            forall|k: Seq<char>|
                lookup(#[trigger] res.aliases(), k) == lookup(pair_views(aliases@), k),
            forall|k: Seq<char>|
                lookup(#[trigger] res.contents(), k) == lookup(pair_views(contents@), k),
    {
        let aliases = collect_pairs(&aliases);
        let contents = collect_pairs(&contents);
        Repository { skills, aliases, contents }
    }

    /// All skills, in index order.
    pub fn all_skills(&self) -> (res: &[SkillEntry])
        ensures
            res@ == self.skills(),
    {
        self.skills.as_slice()
    }

    /// The id that `id` stands for: the canonical id of an alias, else `id` itself.
    pub fn resolve_skill_id<'a>(&'a self, id: &'a str) -> (res: &'a str)
        ensures
            res@ == resolved_id(self.aliases(), id@),
    {
        proof {
            use_type_invariant(self);
        }
        let key = chars_of(id);
        match lookup_exec(&self.aliases, &key) {
            Some(canonical) => canonical,
            None => id,
        }
    }

    /// The first skill whose id is `id`.
    fn find_by_id(&self, id: &Vec<char>) -> (res: Option<&SkillEntry>)
        ensures
            match res {
                Some(e) => find_skill(self.skills(), id@) == Some(*e),
                None => find_skill(self.skills(), id@) is None,
            },
    {
        let n = self.skills.len();
        let mut i: usize = 0;
        assert(self.skills@.skip(0) =~= self.skills@);
        while i < n
            invariant
                n == self.skills@.len(),
                i <= n,
                find_skill(self.skills@, id@) == find_skill(self.skills@.skip(i as int), id@),
            decreases n - i,
        {
            let sid = chars_of(self.skills[i].id.as_str());
            if chars_equal(&sid, id) {
                return Some(&self.skills[i]);
            }
            assert(self.skills@.skip(i as int).drop_first() =~= self.skills@.skip(i + 1));
            i += 1;
        }
        None
    }

    /// The skill that `id` names, directly or through an alias.
    pub fn get_skill(&self, id: &str) -> (res: Option<&SkillEntry>)
        ensures
            match res {
                Some(e) => find_skill(self.skills(), resolved_id(self.aliases(), id@)) == Some(*e),
                None => find_skill(self.skills(), resolved_id(self.aliases(), id@)) is None,
            },
    {
        let resolved = self.resolve_skill_id(id);
        let key = chars_of(resolved);
        self.find_by_id(&key)
    }

    /// The markdown of the skill that `id` names, directly or through an alias.
    pub fn get_skill_content(&self, id: &str) -> (res: Option<&str>)
        ensures
            match res {
                Some(c) => lookup(self.contents(), resolved_id(self.aliases(), id@)) == Some(c@),
                None => lookup(self.contents(), resolved_id(self.aliases(), id@)) is None,
            },
    {
        proof {
            use_type_invariant(self);
        }
        let resolved = self.resolve_skill_id(id);
        let key = chars_of(resolved);
        lookup_exec(&self.contents, &key)
    }

    /// The distinct categories of the skills, in code-point order.
    pub fn categories(&self) -> (res: Vec<&str>)
        ensures
            strictly_sorted(str_views(res@)),
            forall|k: int|
                0 <= k < res.len() ==> is_category(self.skills(), #[trigger] str_views(res@)[k]),
            forall|c: Seq<char>| is_category(self.skills(), c) ==> str_views(res@).contains(c),
    {
        let mut res: Vec<&str> = Vec::new();
        let mut names: Vec<Vec<char>> = Vec::new();
        let mut i: usize = 0;
        while i < self.skills.len()
            invariant
                i <= self.skills@.len(),
                views(names@) == str_views(res@),
                strictly_sorted(str_views(res@)),
                forall|k: int|
                    0 <= k < res.len() ==> is_category(
                        self.skills@.take(i as int),
                        #[trigger] str_views(res@)[k],
                    ),
                forall|c: Seq<char>|
                    is_category(self.skills@.take(i as int), c) ==> str_views(res@).contains(c),
            decreases self.skills.len() - i,
        {
            let cat: &str = self.skills[i].category.as_str();
            let c = chars_of(cat);
            let ghost before = str_views(res@);
            let ghost prefix = self.skills@.take(i as int);
            let ghost next = self.skills@.take(i + 1);
            assert(next[i as int].category@ == c@);
            assert(forall|cc: Seq<char>| is_category(prefix, cc) ==> before.contains(cc));
            let p = insertion_point(&names, &c);
            let present = p < names.len() && chars_equal(&names[p], &c);
            if !present {
                if p < names.len() {
                    proof {
                        lemma_lex_less_total(views(names@)[p as int], c@);
                    }
                }
                proof {
                    lemma_insert_sorted(before, p as int, c@);
                }
                names.insert(p, c);
                res.insert(p, cat);
                assert(views(names@) =~= before.insert(p as int, c@));
                assert(str_views(res@) =~= before.insert(p as int, c@));
            }
            assert forall|k: int|
                0 <= k < res.len() implies is_category(next, #[trigger] str_views(res@)[k]) by {
                if !present && k == p {
                    assert(next[i as int].category@ == str_views(res@)[k]);
                } else {
                    let kk = if !present && k > p {
                        k - 1
                    } else {
                        k
                    };
                    assert(str_views(res@)[k] == before[kk]);
                    assert(is_category(prefix, before[kk]));
                    let j = choose|j: int|
                        0 <= j < prefix.len() && #[trigger] prefix[j].category@ == before[kk];
                    assert(next[j] == prefix[j]);
                }
            }
            assert forall|cc: Seq<char>| is_category(next, cc) implies str_views(
                res@,
            ).contains(cc) by {
                let j = choose|j: int| 0 <= j < next.len() && #[trigger] next[j].category@ == cc;
                if j < i {
                    assert(prefix[j] == next[j]);
                    assert(is_category(prefix, cc));
                    assert(before.contains(cc));
                    let k = choose|k: int| 0 <= k < before.len() && before[k] == cc;
                    if !present && k >= p {
                        assert(str_views(res@)[k + 1] == cc);
                    } else {
                        assert(str_views(res@)[k] == cc);
                    }
                } else if present {
                    assert(str_views(res@)[p as int] == cc);
                } else {
                    assert(str_views(res@)[p as int] == cc);
                }
            }
            i += 1;
        }
        assert(self.skills@.take(self.skills.len() as int) =~= self.skills@);
        res
    }

    /// The skills that match `query` (score above zero), best match first; equal
    /// scores are listed by id, and equal ids in index order.
    pub fn search(&self, query: &str) -> (res: Vec<&SkillEntry>)
        ensures
            is_ranking(
                ids_of(self.skills()),
                scores_of(self.skills(), query@),
                search_order(self.skills(), query@),
            ),
            entries(res@) == search_order(self.skills(), query@).map_values(
                |i: int| self.skills()[i],
            ),
            query@.len() == 0 && fields_filled(self.skills()) ==> lists_all_by_id(
                ids_of(self.skills()),
                search_order(self.skills(), query@),
            ),
            forall|i: int|
                0 <= i < self.skills().len() ==> (search_order(self.skills(), query@).contains(i)
                    <==> matches_query(#[trigger] self.skills()[i], query@)),
    {
        let q = lowercase_chars(query);
        let words = split_whitespace(&q);
        let ghost skills = self.skills@;
        let ghost all_ids = ids_of(skills);
        let ghost all_scores = scores_of(skills, query@);
        let mut ids: Vec<Vec<char>> = Vec::new();
        let mut scores: Vec<u128> = Vec::new();
        let mut i: usize = 0;
        while i < self.skills.len()
            invariant
                skills == self.skills@,
                all_ids == ids_of(skills),
                all_scores == scores_of(skills, query@),
                q@ == lowercase_of(query@),
                views(words@) == whitespace_words(q@),
                i <= skills.len(),
                views(ids@) == all_ids.take(i as int),
                score_values(scores@) == all_scores.take(i as int),
                query@.len() == 0 ==> q@.len() == 0,
                forall|j: int|
                    0 <= j < i && query@.len() == 0 && skills[j].id@.len() > 0
                        && skills[j].name@.len() > 0 && skills[j].category@.len() > 0
                        ==> #[trigger] all_scores[j] == 200,
            decreases self.skills.len() - i,
        {
            let e = &self.skills[i];
            let id = chars_of(e.id.as_str());
            let lid = lowercase_chars(e.id.as_str());
            let lname = lowercase_chars(e.name.as_str());
            let ldesc = lowercase_chars(e.description.as_str());
            let lcat = lowercase_chars(e.category.as_str());
            let score = match_score_exec(&lid, &lname, &ldesc, &lcat, &q, &words);
            proof {
                if query@.len() == 0 && e.id@.len() > 0 && e.name@.len() > 0
                    && e.category@.len() > 0 {
                    assert(q@ =~= Seq::<char>::empty());
                    assert(whitespace_words(q@) =~= Seq::<Seq<char>>::empty());
                    lemma_empty_query_score(lid@, lname@, ldesc@, lcat@);
                }
            }
            let ghost ids_before = views(ids@);
            let ghost scores_before = score_values(scores@);
            ids.push(id);
            scores.push(score);
            assert(views(ids@) =~= ids_before.push(id@));
            assert(score_values(scores@) =~= scores_before.push(score as nat));
            assert(all_ids.take(i + 1) =~= all_ids.take(i as int).push(id@));
            assert(all_scores.take(i + 1) =~= all_scores.take(i as int).push(score as nat));
            assert(all_scores[i as int] == score);
            i += 1;
        }
        assert(all_ids.take(skills.len() as int) =~= all_ids);
        assert(all_scores.take(skills.len() as int) =~= all_scores);
        let order = rank_by_score(&ids, &scores);
        proof {
            lemma_ranking_unique(all_ids, all_scores, positions(order@), search_order(skills, query@));
            assert forall|j: int| 0 <= j < skills.len() implies (search_order(skills, query@).contains(
                j,
            ) <==> matches_query(#[trigger] skills[j], query@)) by {
                lemma_search_lists_matches(skills, query@, search_order(skills, query@), j);
            }
            if query@.len() == 0 && fields_filled(skills) {
                assert forall|j: int| 0 <= j < all_scores.len() implies all_scores[j] == 200 by {
                    assert(skills[j].id@.len() > 0);
                }
                lemma_equal_scores_by_id(all_ids, all_scores, search_order(skills, query@), 200);
            }
        }
        let mut res: Vec<&SkillEntry> = Vec::new();
        let mut k: usize = 0;
        while k < order.len()
            invariant
                skills == self.skills@,
                k <= order.len(),
                is_ranking(all_ids, all_scores, positions(order@)),
                all_scores.len() == skills.len(),
                entries(res@) == positions(order@).take(k as int).map_values(|i: int| skills[i]),
            decreases order.len() - k,
        {
            assert(positions(order@)[k as int] == order@[k as int] as int);
            let ghost before = entries(res@);
            res.push(&self.skills[order[k]]);
            assert(entries(res@) =~= before.push(skills[order@[k as int] as int]));
            assert(positions(order@).take(k + 1).map_values(|i: int| skills[i])
                =~= positions(order@).take(k as int).map_values(|i: int| skills[i]).push(
                skills[order@[k as int] as int],
            ));
            k += 1;
        }
        assert(positions(order@).take(order.len() as int) =~= positions(order@));
        res
    }

    /// A known id to suggest for the unknown `id`: the first alias that `id`
    /// is a prefix of or that is a prefix of `id` (its canonical id when the
    /// alias is `id` itself), else the skill id nearest to `id` by edit
    /// distance (compared lowercased), if one is within distance 5.
    pub fn suggest_skill_id(&self, id: &str) -> (res: Option<&str>)
        ensures
            match res {
                Some(r) => suggestion(self.skills(), self.aliases(), id@) == Some(r@),
                None => suggestion(self.skills(), self.aliases(), id@) is None,
            },
            alias_suggestion(self.aliases(), id@) is None && has_near(
                ids_of(self.skills()),
                distances_of(self.skills(), id@),
            ) ==> (res matches Some(r) && exists|i: int|
                is_nearest(ids_of(self.skills()), distances_of(self.skills(), id@), i)
                    && ids_of(self.skills())[i] == r@),
    {
        let key = chars_of(id);
        let mut k: usize = 0;
        assert(pair_views(self.aliases@).skip(0) =~= pair_views(self.aliases@));
        while k < self.aliases.len()
            invariant
                k <= self.aliases@.len(),
                key@ == id@,
                alias_suggestion(pair_views(self.aliases@), id@) == alias_suggestion(
                    pair_views(self.aliases@).skip(k as int),
                    id@,
                ),
            decreases self.aliases.len() - k,
        {
            let ghost rest = pair_views(self.aliases@).skip(k as int);
            assert(rest[0] == pair_views(self.aliases@)[k as int]);
            let alias = chars_of(self.aliases[k].0.as_str());
            if starts_with_exec(&alias, &key) || starts_with_exec(&key, &alias) {
                if chars_equal(&alias, &key) {
                    return Some(self.aliases[k].1.as_str());
                } else {
                    return Some(self.aliases[k].0.as_str());
                }
            }
            assert(rest.drop_first() =~= pair_views(self.aliases@).skip(k + 1));
            k += 1;
        }
        let lowered = to_lowercase(id);
        let ghost all_ids = ids_of(self.skills@);
        let ghost all_dist = distances_of(self.skills@, id@);
        let mut ids: Vec<Vec<char>> = Vec::new();
        let mut dists: Vec<usize> = Vec::new();
        let mut i: usize = 0;
        while i < self.skills.len()
            invariant
                i <= self.skills@.len(),
                lowered@ == lowercase_of(id@),
                all_ids == ids_of(self.skills@),
                all_dist == distances_of(self.skills@, id@),
                views(ids@) == all_ids.take(i as int),
                dists@.map_values(|d: usize| d as nat) == all_dist.take(i as int),
            decreases self.skills.len() - i,
        {
            let other = to_lowercase(self.skills[i].id.as_str());
            let d = levenshtein(lowered.as_str(), other.as_str());
            let ghost ids_before = views(ids@);
            let ghost dists_before = dists@.map_values(|d: usize| d as nat);
            ids.push(chars_of(self.skills[i].id.as_str()));
            dists.push(d);
            assert(views(ids@) =~= ids_before.push(self.skills@[i as int].id@));
            assert(dists@.map_values(|d: usize| d as nat) =~= dists_before.push(d as nat));
            assert(all_ids.take(i + 1) =~= all_ids.take(i as int).push(self.skills@[i as int].id@));
            assert(all_dist.take(i + 1) =~= all_dist.take(i as int).push(d as nat));
            i += 1;
        }
        assert(all_ids.take(self.skills.len() as int) =~= all_ids);
        assert(all_dist.take(self.skills.len() as int) =~= all_dist);
        match closest_skill(&ids, &dists) {
            Some(b) => {
                proof {
                    let c = choose|c: int| is_nearest(all_ids, all_dist, c);
                    lemma_nearest_id_unique(all_ids, all_dist, b as int, c);
                    assert(is_nearest(all_ids, all_dist, b as int));
                }
                Some(self.skills[b].id.as_str())
            },
            None => None,
        }
    }

    /// The error for an unknown skill id, with a suggestion when there is one.
    pub fn not_found_error(&self, id: &str) -> (res: String)
        ensures
            res@ == not_found_message(id@, suggestion(self.skills(), self.aliases(), id@)),
    {
        let mut msg: Vec<char> = Vec::new();
        extend_str(&mut msg, "Skill not found: ");
        extend_str(&mut msg, id);
        match self.suggest_skill_id(id) {
            Some(s) => {
                extend_str(&mut msg, "\nDid you mean: ");
                extend_str(&mut msg, s);
                extend_str(&mut msg, "?");
            },
            None => {},
        }
        assert(msg@ =~= not_found_message(id@, suggestion(self.skills(), self.aliases(), id@)));
        string_of(&msg)
    }

    /// The skills whose category is exactly `category`, in index order.
    pub fn skills_by_category(&self, category: &str) -> (res: Vec<&SkillEntry>)
        ensures
            entries(res@) == in_category(self.skills(), category@),
    {
        let wanted = chars_of(category);
        let mut res: Vec<&SkillEntry> = Vec::new();
        let mut i: usize = 0;
        assert(self.skills@.take(0) =~= Seq::<SkillEntry>::empty());
        assert(entries(res@) =~= Seq::<SkillEntry>::empty());
        while i < self.skills.len()
            invariant
                i <= self.skills@.len(),
                entries(res@) == in_category(self.skills@.take(i as int), wanted@),
            decreases self.skills.len() - i,
        {
            let ghost before = entries(res@);
            assert(self.skills@.take(i + 1).drop_last() =~= self.skills@.take(i as int));
            let cat = chars_of(self.skills[i].category.as_str());
            if chars_equal(&cat, &wanted) {
                res.push(&self.skills[i]);
                assert(entries(res@) =~= before.push(self.skills@[i as int]));
            }
            i += 1;
        }
        assert(self.skills@.take(self.skills.len() as int) =~= self.skills@);
        res
    }
}

} // verus!
