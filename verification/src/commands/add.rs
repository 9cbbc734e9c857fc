//! The `add` command: the skills to copy into a directory, or why not.
use vstd::prelude::*;

use super::{batch_result, joined, lines, step_failure, Step};
use crate::keyed::lookup;
use crate::repository::{find_skill, not_found_message, resolved_id, suggestion, Repository};
use crate::text::{extend_str, string_of};

verus! {

/// The step `add` takes for the requested `id`: write the skill's markdown
/// under its canonical id, or report that it is unknown or has no markdown.
pub open spec fn is_add_step(repo: Repository, id: Seq<char>, step: Step) -> bool {
    let resolved = resolved_id(repo.aliases(), id);
    match find_skill(repo.skills(), resolved) {
        None => step matches Step::Fail(m) && m@ == not_found_message(
            id,
            suggestion(repo.skills(), repo.aliases(), id),
        ),
        Some(e) => match lookup(repo.contents(), resolved) {
            None => step matches Step::Fail(m) && m@ == "Skill content not available for: "@ + e.id@,
            Some(c) => step matches Step::Write { id: wid, name, content } && wid@ == e.id@ && name@
                == e.name@ && content@ == c,
        },
    }
}

/// One step per requested id, in order. Every id is looked at, whatever
/// happened to the ones before it; the caller performs the writes, collects
/// the errors and ends with `batch_result`.
pub fn run(repository: &Repository, skill_ids: &[String]) -> (res: Vec<Step>)
    ensures
        res.len() == skill_ids@.len(),
        forall|k: int|
            0 <= k < res.len() ==> is_add_step(*repository, skill_ids@[k]@, #[trigger] res@[k]),
{
    let mut res: Vec<Step> = Vec::new();
    let mut i: usize = 0;
    while i < skill_ids.len()
        invariant
            i <= skill_ids@.len(),
            res.len() == i,
            forall|k: int|
                0 <= k < i ==> is_add_step(*repository, skill_ids@[k]@, #[trigger] res@[k]),
        decreases skill_ids.len() - i,
    {
        let id = skill_ids[i].as_str();
        let step = match repository.get_skill(id) {
            None => Step::Fail(repository.not_found_error(id)),
            Some(skill) => match repository.get_skill_content(id) {
                None => {
                    let mut msg: Vec<char> = Vec::new();
                    extend_str(&mut msg, "Skill content not available for: ");
                    extend_str(&mut msg, skill.id.as_str());
                    Step::Fail(string_of(&msg))
                },
                Some(content) => Step::Write {
                    id: skill.id.clone(),
                    name: skill.name.clone(),
                    content: String::from_str(content),
                },
            },
        };
        assert(is_add_step(*repository, skill_ids@[i as int]@, step));
        res.push(step);
        i += 1;
    }
    res
}

/// The messages of the failed steps, in order; `outcomes[k]` is what
/// performing step `k` gave (the error of its write, if any).
pub open spec fn failures(steps: Seq<Step>, outcomes: Seq<Option<String>>) -> Seq<Seq<char>>
    decreases steps.len(),
{
    if steps.len() == 0 {
        Seq::empty()
    } else {
        let prev = failures(steps.drop_last(), outcomes.take(steps.len() - 1));
        match step_failure(steps.last(), outcomes[steps.len() - 1]) {
            Some(m) => prev.push(m),
            None => prev,
        }
    }
}

/// The result of `add` once every step has been performed: success when no
/// step failed, else every failure message, in input order, one per line.
pub fn finish(steps: &Vec<Step>, outcomes: &Vec<Option<String>>) -> (res: Result<(), String>)
    requires
        steps.len() == outcomes.len(),
    ensures
        failures(steps@, outcomes@).len() == 0 ==> res is Ok,
        failures(steps@, outcomes@).len() > 0 ==> (res matches Err(e) && e@ == joined(
            failures(steps@, outcomes@),
            seq!['\n'],
        )),
{
    let mut errors: Vec<String> = Vec::new();
    let mut k: usize = 0;
    while k < steps.len()
        invariant
            k <= steps.len(),
            steps.len() == outcomes.len(),
            lines(errors@) == failures(steps@.take(k as int), outcomes@.take(k as int)),
        decreases steps.len() - k,
    {
        let ghost before = lines(errors@);
        assert(steps@.take(k + 1).drop_last() =~= steps@.take(k as int));
        assert(outcomes@.take(k + 1).take(k as int) =~= outcomes@.take(k as int));
        assert(steps@.take(k + 1).last() == steps@[k as int]);
        assert(outcomes@.take(k + 1)[k as int] == outcomes@[k as int]);
        match &steps[k] {
            Step::Fail(m) => {
                errors.push(m.clone());
                assert(lines(errors@) =~= before.push(m@));
            },
            Step::Write { .. } => match &outcomes[k] {
                Some(e) => {
                    errors.push(e.clone());
                    assert(lines(errors@) =~= before.push(e@));
                },
                None => {},
            },
        }
        k += 1;
    }
    assert(steps@.take(steps.len() as int) =~= steps@);
    assert(outcomes@.take(steps.len() as int) =~= outcomes@);
    batch_result(&errors)
}

/// `id` names a skill that has markdown.
pub open spec fn installable(repo: Repository, id: Seq<char>) -> bool {
    let resolved = resolved_id(repo.aliases(), id);
    find_skill(repo.skills(), resolved) is Some && lookup(repo.contents(), resolved) is Some
}

/// `add` succeeds exactly when every requested id names a skill with markdown
/// and every write succeeds; otherwise it reports, in input order, each
/// unknown id, each skill without markdown and each failed write.
pub proof fn lemma_add_outcome(
    repo: Repository,
    ids: Seq<String>,
    steps: Seq<Step>,
    outcomes: Seq<Option<String>>,
)
    requires
        steps.len() == ids.len(),
        outcomes.len() == ids.len(),
        forall|k: int| 0 <= k < steps.len() ==> is_add_step(repo, ids[k]@, #[trigger] steps[k]),
    ensures
        failures(steps, outcomes).len() == 0 <==> forall|k: int|
            0 <= k < ids.len() ==> installable(repo, #[trigger] ids[k]@) && outcomes[k] is None,
    decreases steps.len(),
{
    if steps.len() > 0 {
        let n = steps.len() - 1;
        assert forall|k: int| 0 <= k < n implies is_add_step(
            repo,
            ids.drop_last()[k]@,
            #[trigger] steps.drop_last()[k],
        ) by {
            assert(steps.drop_last()[k] == steps[k]);
            assert(ids.drop_last()[k] == ids[k]);
        }
        lemma_add_outcome(repo, ids.drop_last(), steps.drop_last(), outcomes.take(n));
        let pre = failures(steps.drop_last(), outcomes.take(n));
        assert(pre.len() == 0 <==> forall|k: int|
            0 <= k < n ==> installable(repo, #[trigger] ids.drop_last()[k]@) && outcomes.take(
                n,
            )[k] is None);
        assert(is_add_step(repo, ids[n]@, steps[n]));
        if forall|k: int|
            0 <= k < ids.len() ==> installable(repo, #[trigger] ids[k]@) && outcomes[k] is None {
            assert forall|k: int| 0 <= k < n implies installable(
                repo,
                #[trigger] ids.drop_last()[k]@,
            ) && outcomes.take(n)[k] is None by {
                assert(ids.drop_last()[k] == ids[k]);
                assert(installable(repo, ids[k]@));
            }
            assert(installable(repo, ids[n]@));
        }
        if failures(steps, outcomes).len() == 0 {
            assert(failures(steps.drop_last(), outcomes.take(n)).len() == 0);
            assert(step_failure(steps[n], outcomes[n]) is None);
            assert forall|k: int|
                0 <= k < ids.len() implies installable(repo, #[trigger] ids[k]@)
                    && outcomes[k] is None by {
                if k < n {
                    assert(ids.drop_last()[k] == ids[k]);
                    assert(outcomes.take(n)[k] == outcomes[k]);
                    assert(installable(repo, ids.drop_last()[k]@));
                    assert(outcomes.take(n)[k] is None);
                }
            }
        }
    }
}

} // verus!
