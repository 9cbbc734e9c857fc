//! The meta skills that ship with the command-line tool itself, kept apart
//! from the indexed catalog.
use vstd::prelude::*;

use crate::keyed::{collect_pairs, distinct_keys, lookup, lookup_exec, pair_views};
use crate::text::{chars_equal, chars_of};

verus! {

/// One meta skill.
#[derive(Debug, Clone, Copy)]
pub struct MetaSkillEntry {
    pub id: &'static str,
    pub name: &'static str,
    pub description: &'static str,
}

/// The meta skills and their markdown, keyed by id.
#[derive(Debug)]
pub struct MetaRepository {
    skills: Vec<MetaSkillEntry>,
    contents: Vec<(String, String)>,
}

/// The first meta skill whose id is `id`.
pub open spec fn find_meta_skill(skills: Seq<MetaSkillEntry>, id: Seq<char>) -> Option<
    MetaSkillEntry,
>
    decreases skills.len(),
{
    if skills.len() == 0 {
        None
    } else if skills[0].id@ == id {
        Some(skills[0])
    } else {
        find_meta_skill(skills.drop_first(), id)
    }
}

/// The meta skills, in the order they are installed.
pub open spec fn meta_skill_entries() -> Seq<MetaSkillEntry> {
    seq![
        MetaSkillEntry {
            id: "awesome-skills-cli",
            name: "awesome-skills-cli",
            description: "Offline command reference and setup guidance for the awesome-skills-cli binary.",
        },
        MetaSkillEntry {
            id: "recommend-awesome-skills",
            name: "recommend-awesome-skills",
            description: "Context-first recommendation workflow for choosing and optionally installing awesome skills.",
        },
    ]
}

fn meta_skills() -> (res: Vec<MetaSkillEntry>)
    ensures
        res@ == meta_skill_entries(),
{
    let mut res: Vec<MetaSkillEntry> = Vec::new();
    res.push(
        MetaSkillEntry {
            id: "awesome-skills-cli",
            name: "awesome-skills-cli",
            description: "Offline command reference and setup guidance for the awesome-skills-cli binary.",
        },
    );
    res.push(
        MetaSkillEntry {
            id: "recommend-awesome-skills",
            name: "recommend-awesome-skills",
            description: "Context-first recommendation workflow for choosing and optionally installing awesome skills.",
        },
    );
    assert(res@ =~= meta_skill_entries());
    res
}

impl MetaRepository {
    #[verifier::type_invariant]
    spec fn keys_unique(self) -> bool {
        distinct_keys(pair_views(self.contents@))
    }

    /// The meta skills.
    pub closed spec fn skills(self) -> Seq<MetaSkillEntry> {
        self.skills@
    }

    /// The (id, markdown) pairs.
    pub closed spec fn contents(self) -> Seq<(Seq<char>, Seq<char>)> {
        pair_views(self.contents@)
    }

    /// The meta skills, with the markdown of each given as (id, markdown)
    /// pairs; as in a map, a later pair for the same id replaces an earlier one.
    pub fn new(contents: Vec<(String, String)>) -> (res: Self)
        ensures
            res.skills() == meta_skill_entries(),
            forall|k: Seq<char>|
                lookup(#[trigger] res.contents(), k) == lookup(pair_views(contents@), k),
    {
        let contents = collect_pairs(&contents);
        MetaRepository { skills: meta_skills(), contents }
    }

    /// All meta skills.
    pub fn all_skills(&self) -> (res: &[MetaSkillEntry])
        ensures
            res@ == self.skills(),
    {
        self.skills.as_slice()
    }

    /// The meta skill whose id is exactly `id` (no aliases).
    pub fn get_skill(&self, id: &str) -> (res: Option<&MetaSkillEntry>)
        ensures
            match res {
                Some(e) => find_meta_skill(self.skills(), id@) == Some(*e),
                None => find_meta_skill(self.skills(), id@) is None,
            },
    {
        let key = chars_of(id);
        let n = self.skills.len();
        let mut i: usize = 0;
        assert(self.skills@.skip(0) =~= self.skills@);
        while i < n
            invariant
                n == self.skills@.len(),
                i <= n,
                key@ == id@,
                find_meta_skill(self.skills@, id@) == find_meta_skill(
                    self.skills@.skip(i as int),
                    id@,
                ),
            decreases n - i,
        {
            let sid = chars_of(self.skills[i].id);
            if chars_equal(&sid, &key) {
                return Some(&self.skills[i]);
            }
            assert(self.skills@.skip(i as int).drop_first() =~= self.skills@.skip(i + 1));
            i += 1;
        }
        None
    }

    /// The markdown of the meta skill whose id is exactly `id`.
    pub fn get_skill_content(&self, id: &str) -> (res: Option<&str>)
        ensures
            match res {
                Some(c) => lookup(self.contents(), id@) == Some(c@),
                None => lookup(self.contents(), id@) is None,
            },
    {
        proof {
            use_type_invariant(self);
        }
        let key = chars_of(id);
        lookup_exec(&self.contents, &key)
    }
}

} // verus!
