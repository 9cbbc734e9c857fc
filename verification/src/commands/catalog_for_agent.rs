//! The `catalog-for-agent` listing: a page of the catalog with only the
//! fields an agent needs.
use vstd::prelude::*;

use super::list::{metadata_line, metadata_line_exec};
use super::{lines, page_of, CommandOutput};
use crate::keyed::lookup;
use crate::repository::{CatalogEntry, Repository, SkillEntry};

verus! {

/// `c` shows the id, category, description and risk of `e`.
pub open spec fn shows(c: CatalogEntry, e: SkillEntry) -> bool {
    &&& c.id@ == e.id@
    &&& c.category@ == e.category@
    &&& c.description@ == e.description@
    &&& c.risk@ == e.risk@
}

/// The entries of the page of skills that starts at `offset` and holds at most `limit`.
pub fn run(repository: &Repository, limit: usize, offset: usize) -> (res: Vec<CatalogEntry<'_>>)
    ensures
        res.len() == page_of(repository.skills(), offset as nat, limit as nat).len(),
        forall|k: int|
            0 <= k < res.len() ==> shows(
                #[trigger] res@[k],
                page_of(repository.skills(), offset as nat, limit as nat)[k],
            ),
{
    let skills = repository.all_skills();
    let ghost page = page_of(repository.skills(), offset as nat, limit as nat);
    let total = skills.len();
    let start: usize = if offset >= total {
        total
    } else {
        offset
    };
    let end: usize = if offset >= total {
        total
    } else if limit >= total - offset {
        total
    } else {
        offset + limit
    };
    assert(page =~= skills@.subrange(start as int, end as int));
    let mut res: Vec<CatalogEntry> = Vec::new();
    let mut k: usize = start;
    while k < end
        invariant
            start <= k <= end <= total,
            total == skills@.len(),
            page == skills@.subrange(start as int, end as int),
            res.len() == k - start,
            forall|j: int| 0 <= j < res.len() ==> shows(#[trigger] res@[j], page[j]),
        decreases end - k,
    {
        let e = &skills[k];
        res.push(
            CatalogEntry {
                id: e.id.as_str(),
                category: e.category.as_str(),
                description: e.description.as_str(),
                risk: e.risk.as_str(),
            },
        );
        assert(page[k - start] == skills@[k as int]);
        k += 1;
    }
    res
}

/// The summary line printed after the catalog page: the number of skills,
/// the requested offset and limit, how many entries the page holds, and
/// whether more follow.
pub fn summary(repository: &Repository, limit: usize, offset: usize) -> (res: String)
    ensures
        ({
            let total = repository.skills().len();
            let returned = page_of(repository.skills(), offset as nat, limit as nat).len();
            res@ == metadata_line(total, offset as nat, limit as nat, returned, offset + returned < total)
        }),
{
    let total = repository.all_skills().len();
    let returned: usize = if offset >= total {
        0
    } else if limit >= total - offset {
        total - offset
    } else {
        limit
    };
    assert(returned == page_of(repository.skills(), offset as nat, limit as nat).len());
    let has_more = offset + returned < total;
    metadata_line_exec(total, offset, limit, returned, has_more)
}

/// The members (name, value) of each of a sequence of JSON objects.
pub open spec fn object_views(objects: Seq<Vec<(&str, &str)>>) -> Seq<Seq<(Seq<char>, Seq<char>)>> {
    objects.map_values(
        |o: Vec<(&str, &str)>| o@.map_values(|m: (&str, &str)| (m.0@, m.1@)),
    )
}

/// What `serde_json::to_string_pretty` gives for a JSON array of objects,
/// each made of the given string members (name, value).
pub uninterp spec fn json_objects_text(objects: Seq<Seq<(Seq<char>, Seq<char>)>>) -> Seq<char>;

/// The error type of `serde_json`.
#[verifier::external_type_specification]
#[verifier::external_body]
pub struct ExJsonError(serde_json::Error);

/// `serde_json::to_string_pretty` on an array of objects, each object built
/// from its (name, value) pairs as a map of strings. It succeeds: its
/// documentation says it fails only when a `Serialize` impl fails or a map
/// has non-string keys, and maps from strings to strings do neither. Its text
/// is a function of the pairs alone.
#[verifier::external_body]
fn json_objects(objects: &Vec<Vec<(&str, &str)>>) -> (res: Result<String, serde_json::Error>)
    ensures
        res is Ok,
        res matches Ok(text) ==> text@ == json_objects_text(object_views(objects@)),
{
    let maps: Vec<std::collections::BTreeMap<&str, &str>> =
        objects.iter().map(|o| o.iter().copied().collect()).collect();
    serde_json::to_string_pretty(&maps)
}

/// The JSON members that `catalog-for-agent` shows of a skill.
pub open spec fn members(e: SkillEntry) -> Seq<(Seq<char>, Seq<char>)> {
    seq![
        ("id"@, e.id@),
        ("category"@, e.category@),
        ("description"@, e.description@),
        ("risk"@, e.risk@),
    ]
}

/// The JSON object of a skill describes that skill: it has four members,
/// and looking up "id", "category", "description" and "risk" in it gives the
/// skill's id, category, description and risk; any other name gives nothing.
pub proof fn lemma_object_describes_skill(e: SkillEntry)
    ensures
        members(e).len() == 4,
        lookup(members(e), "id"@) == Some(e.id@),
        lookup(members(e), "category"@) == Some(e.category@),
        lookup(members(e), "description"@) == Some(e.description@),
        lookup(members(e), "risk"@) == Some(e.risk@),
        forall|name: Seq<char>|
            name != "id"@ && name != "category"@ && name != "description"@ && name != "risk"@
                ==> #[trigger] lookup(members(e), name) is None,
{
    reveal_strlit("id");
    reveal_strlit("category");
    reveal_strlit("description");
    reveal_strlit("risk");
    let m = members(e);
    let m3 = m.drop_last();
    let m2 = m3.drop_last();
    let m1 = m2.drop_last();
    let m0 = m1.drop_last();
    assert(m.last() == ("risk"@, e.risk@));
    assert(m3.last() == ("description"@, e.description@));
    assert(m2.last() == ("category"@, e.category@));
    assert(m1.last() == ("id"@, e.id@));
    assert(m0.len() == 0);
    assert("id"@.len() == 2 && "category"@.len() == 8 && "description"@.len() == 11
        && "risk"@.len() == 4);
    assert forall|name: Seq<char>|
        name != "id"@ && name != "category"@ && name != "description"@ && name != "risk"@
            implies #[trigger] lookup(members(e), name) is None by {
        assert(lookup(m0, name) is None);
        assert(lookup(m1, name) is None);
        assert(lookup(m2, name) is None);
        assert(lookup(m3, name) is None);
    }
    assert(lookup(m1, "id"@) == Some(e.id@));
    assert(lookup(m2, "id"@) == Some(e.id@));
    assert(lookup(m3, "id"@) == Some(e.id@));
    assert(lookup(m2, "category"@) == Some(e.category@));
    assert(lookup(m3, "category"@) == Some(e.category@));
    assert(lookup(m3, "description"@) == Some(e.description@));
}

/// Each object that `catalog-for-agent` prints describes the skill at its
/// place in the page (see `lemma_object_describes_skill`).
pub proof fn lemma_page_objects(skills: Seq<SkillEntry>, offset: nat, limit: nat)
    ensures
        ({
            let page = page_of(skills, offset, limit);
            let objects = page.map_values(|e: SkillEntry| members(e));
            &&& objects.len() == page.len()
            &&& forall|k: int|
                0 <= k < page.len() ==> {
                    &&& lookup(#[trigger] objects[k], "id"@) == Some(page[k].id@)
                    &&& lookup(objects[k], "category"@) == Some(page[k].category@)
                    &&& lookup(objects[k], "description"@) == Some(page[k].description@)
                    &&& lookup(objects[k], "risk"@) == Some(page[k].risk@)
                }
        }),
{
    let page = page_of(skills, offset, limit);
    let objects = page.map_values(|e: SkillEntry| members(e));
    assert forall|k: int| 0 <= k < page.len() implies {
        &&& lookup(#[trigger] objects[k], "id"@) == Some(page[k].id@)
        &&& lookup(objects[k], "category"@) == Some(page[k].category@)
        &&& lookup(objects[k], "description"@) == Some(page[k].description@)
        &&& lookup(objects[k], "risk"@) == Some(page[k].risk@)
    } by {
        lemma_object_describes_skill(page[k]);
    }
}

/// The members of the entry `c`, in the order `members` gives them.
fn entry_members<'a>(c: &CatalogEntry<'a>) -> (res: Vec<(&'a str, &'a str)>)
    ensures
        res@.map_values(|m: (&str, &str)| (m.0@, m.1@)) == seq![
            ("id"@, c.id@),
            ("category"@, c.category@),
            ("description"@, c.description@),
            ("risk"@, c.risk@),
        ],
{
    let mut res: Vec<(&'a str, &'a str)> = Vec::new();
    res.push(("id", c.id));
    res.push(("category", c.category));
    res.push(("description", c.description));
    res.push(("risk", c.risk));
    assert(res@.map_values(|m: (&str, &str)| (m.0@, m.1@)) =~= seq![
        ("id"@, c.id@),
        ("category"@, c.category@),
        ("description"@, c.description@),
        ("risk"@, c.risk@),
    ]);
    res
}

/// The message `catalog-for-agent` fails with when the page cannot be encoded.
pub open spec fn encoding_failed() -> Seq<char> {
    "failed to serialize catalog output"@
}

/// What `catalog-for-agent` prints, given the page encoded as JSON (`None`
/// when encoding failed) and the summary line: the JSON on standard output
/// and the summary on standard error, or nothing and the encoding error.
pub fn page_output(json: Option<String>, summary: String) -> (res: CommandOutput)
    ensures
        match json {
            Some(j) => lines(res.stdout@) == seq![j@] && lines(res.stderr@) == seq![summary@]
                && res.error is None,
            None => res.stdout@.len() == 0 && res.stderr@.len() == 0 && (res.error matches Some(
                e,
            ) && e@ == encoding_failed()),
        },
{
    match json {
        Some(j) => {
            let ghost jv = j@;
            let mut stdout: Vec<String> = Vec::new();
            stdout.push(j);
            let mut stderr: Vec<String> = Vec::new();
            let ghost sv = summary@;
            stderr.push(summary);
            assert(lines(stdout@) =~= seq![jv]);
            assert(lines(stderr@) =~= seq![sv]);
            CommandOutput { stdout, stderr, error: None }
        },
        None => {
            let e = String::from_str("failed to serialize catalog output");
            proof {
                reveal_strlit("failed to serialize catalog output");
            }
            CommandOutput { stdout: Vec::new(), stderr: Vec::new(), error: Some(e) }
        },
    }
}

/// The whole of `catalog-for-agent`: the page of skills that starts at
/// `offset` and holds at most `limit`, as a JSON array of objects on standard
/// output, and the summary line on standard error. It always succeeds.
pub fn output(repository: &Repository, limit: usize, offset: usize) -> (res: CommandOutput)
    ensures
        ({
            let total = repository.skills().len();
            let page = page_of(repository.skills(), offset as nat, limit as nat);
            &&& res.error is None
            &&& lines(res.stdout@) == seq![
                json_objects_text(page.map_values(|e: SkillEntry| members(e))),
            ]
            &&& lines(res.stderr@) == seq![
                metadata_line(
                    total,
                    offset as nat,
                    limit as nat,
                    page.len(),
                    offset + page.len() < total,
                ),
            ]
        }),
{
    let entries = run(repository, limit, offset);
    let ghost page = page_of(repository.skills(), offset as nat, limit as nat);
    let mut objects: Vec<Vec<(&str, &str)>> = Vec::new();
    let mut k: usize = 0;
    while k < entries.len()
        invariant
            k <= entries.len(),
            entries.len() == page.len(),
            forall|j: int| 0 <= j < entries.len() ==> shows(#[trigger] entries@[j], page[j]),
            object_views(objects@) == page.take(k as int).map_values(|e: SkillEntry| members(e)),
        decreases entries.len() - k,
    {
        let ghost before = object_views(objects@);
        let m = entry_members(&entries[k]);
        objects.push(m);
        assert(shows(entries@[k as int], page[k as int]));
        assert(object_views(objects@) =~= before.push(members(page[k as int])));
        assert(page.take(k + 1).map_values(|e: SkillEntry| members(e)) =~= page.take(
            k as int,
        ).map_values(|e: SkillEntry| members(e)).push(members(page[k as int])));
        k += 1;
    }
    assert(page.take(entries.len() as int) =~= page);
    let json = match json_objects(&objects) {
        Ok(text) => Some(text),
        Err(_) => None,
    };
    page_output(json, summary(repository, limit, offset))
}

} // verus!
