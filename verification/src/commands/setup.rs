//! The `setup` command: which meta skills to install, and their markdown.
use vstd::prelude::*;

use super::{joined, join_lines, lines, Step};
use crate::keyed::lookup;
use crate::meta_repository::{find_meta_skill, MetaRepository, MetaSkillEntry};
use crate::text::{extend_str, string_of};

verus! {

/// The error for an unknown meta skill id.
pub open spec fn meta_not_found(id: Seq<char>) -> Seq<char> {
    "Meta skill not found: "@ + id
}

/// The meta skills named by `ids` that exist, in order.
pub open spec fn found_meta(skills: Seq<MetaSkillEntry>, ids: Seq<String>) -> Seq<MetaSkillEntry>
    decreases ids.len(),
{
    if ids.len() == 0 {
        Seq::empty()
    } else {
        let prev = found_meta(skills, ids.drop_last());
        match find_meta_skill(skills, ids.last()@) {
            Some(e) => prev.push(e),
            None => prev,
        }
    }
}

/// The errors for the ids of `ids` that name no meta skill, in order.
pub open spec fn missing_meta(skills: Seq<MetaSkillEntry>, ids: Seq<String>) -> Seq<Seq<char>>
    decreases ids.len(),
{
    if ids.len() == 0 {
        Seq::empty()
    } else {
        let prev = missing_meta(skills, ids.drop_last());
        match find_meta_skill(skills, ids.last()@) {
            Some(e) => prev,
            None => prev.push(meta_not_found(ids.last()@)),
        }
    }
}

/// The meta skills to install: all of them when no id is given, else those
/// named (an error listing every unknown id when some are unknown).
pub open spec fn selection(meta: MetaRepository, ids: Seq<String>) -> Result<
    Seq<MetaSkillEntry>,
    Seq<char>,
> {
    if ids.len() == 0 {
        Ok(meta.skills())
    } else if missing_meta(meta.skills(), ids).len() > 0 {
        Err(joined(missing_meta(meta.skills(), ids), seq!['\n']))
    } else {
        Ok(found_meta(meta.skills(), ids))
    }
}

/// The position of the first selected skill that has no markdown, or the
/// number of selected skills when all have one.
pub open spec fn first_without_content(
    contents: Seq<(Seq<char>, Seq<char>)>,
    selected: Seq<MetaSkillEntry>,
) -> nat
    decreases selected.len(),
{
    if selected.len() == 0 {
        0
    } else if lookup(contents, selected[0].id@) is None {
        0
    } else {
        1 + first_without_content(contents, selected.drop_first())
    }
}

/// The steps for the selected skills: a write for each, stopping at the first
/// skill without markdown with an error for it.
pub open spec fn are_setup_steps(
    contents: Seq<(Seq<char>, Seq<char>)>,
    selected: Seq<MetaSkillEntry>,
    steps: Seq<Step>,
) -> bool {
    let m = first_without_content(contents, selected);
    &&& m <= selected.len()
    &&& steps.len() == if m < selected.len() {
        m + 1
    } else {
        m
    }
    &&& forall|k: int|
        0 <= k < m ==> (#[trigger] steps[k] matches Step::Write { id, name, content } && id@
            == selected[k].id@ && name@ == selected[k].name@ && lookup(contents, selected[k].id@)
            == Some(content@))
    &&& m < selected.len() ==> (steps[m as int] matches Step::Fail(e) && e@
        == "meta skill content not available for: "@ + selected[m as int].id@)
}

/// What `setup` does for the requested ids.
pub open spec fn is_setup_plan(meta: MetaRepository, ids: Seq<String>, res: Result<Vec<Step>, String>) -> bool {
    match selection(meta, ids) {
        Err(e) => res matches Err(r) && r@ == e,
        Ok(selected) => res matches Ok(steps) && are_setup_steps(meta.contents(), selected, steps@),
    }
}

proof fn lemma_first_without_content_step(
    contents: Seq<(Seq<char>, Seq<char>)>,
    selected: Seq<MetaSkillEntry>,
    i: int,
)
    requires
        0 <= i < selected.len(),
        forall|k: int| 0 <= k < i ==> lookup(contents, #[trigger] selected[k].id@) is Some,
    ensures
        lookup(contents, selected[i].id@) is None ==> first_without_content(contents, selected) == i,
        lookup(contents, selected[i].id@) is Some ==> first_without_content(contents, selected) > i,
    decreases i,
{
    if i > 0 {
        assert(lookup(contents, selected[0].id@) is Some);
        assert forall|k: int| 0 <= k < i - 1 implies lookup(
            contents,
            #[trigger] selected.drop_first()[k].id@,
        ) is Some by {
            assert(selected.drop_first()[k] == selected[k + 1]);
        }
        assert(selected.drop_first()[i - 1] == selected[i]);
        lemma_first_without_content_step(contents, selected.drop_first(), i - 1);
    }
}

proof fn lemma_first_without_content_all(
    contents: Seq<(Seq<char>, Seq<char>)>,
    selected: Seq<MetaSkillEntry>,
)
    requires
        forall|k: int| 0 <= k < selected.len() ==> lookup(contents, #[trigger] selected[k].id@) is Some,
    ensures
        first_without_content(contents, selected) == selected.len(),
    decreases selected.len(),
{
    if selected.len() > 0 {
        assert(lookup(contents, selected[0].id@) is Some);
        assert forall|k: int| 0 <= k < selected.len() - 1 implies lookup(
            contents,
            #[trigger] selected.drop_first()[k].id@,
        ) is Some by {
            assert(selected.drop_first()[k] == selected[k + 1]);
        }
        lemma_first_without_content_all(contents, selected.drop_first());
    }
}

/// Chooses the meta skills (all when `skill_ids` is empty) and gives the steps
/// that install them: a write per skill, stopping at the first failure. Any
/// unknown id fails the whole command before anything is written.
pub fn run(repository: &MetaRepository, skill_ids: &Vec<String>) -> (res: Result<Vec<Step>, String>)
    ensures
        is_setup_plan(*repository, skill_ids@, res),
{
    let mut selected: Vec<&MetaSkillEntry> = Vec::new();
    let ghost sel: Seq<MetaSkillEntry>;
    if skill_ids.len() == 0 {
        let all = repository.all_skills();
        let mut i: usize = 0;
        while i < all.len()
            invariant
                i <= all@.len(),
                all@ == repository.skills(),
                selected@.map_values(|e: &MetaSkillEntry| *e) == all@.take(i as int),
            decreases all.len() - i,
        {
            let ghost before = selected@.map_values(|e: &MetaSkillEntry| *e);
            selected.push(&all[i]);
            assert(selected@.map_values(|e: &MetaSkillEntry| *e) =~= before.push(all@[i as int]));
            assert(all@.take(i + 1) =~= all@.take(i as int).push(all@[i as int]));
            i += 1;
        }
        assert(all@.take(all.len() as int) =~= all@);
        proof {
            sel = repository.skills();
        }
    } else {
        let mut errors: Vec<String> = Vec::new();
        let mut i: usize = 0;
        assert(skill_ids@.take(0) =~= Seq::<String>::empty());
        while i < skill_ids.len()
            invariant
                i <= skill_ids@.len(),
                selected@.map_values(|e: &MetaSkillEntry| *e) == found_meta(
                    repository.skills(),
                    skill_ids@.take(i as int),
                ),
                lines(errors@) == missing_meta(repository.skills(), skill_ids@.take(i as int)),
            decreases skill_ids.len() - i,
        {
            let ghost upto = skill_ids@.take(i + 1);
            assert(upto.drop_last() =~= skill_ids@.take(i as int));
            assert(upto.last() == skill_ids@[i as int]);
            let ghost sel_before = selected@.map_values(|e: &MetaSkillEntry| *e);
            let ghost err_before = lines(errors@);
            match repository.get_skill(skill_ids[i].as_str()) {
                Some(skill) => {
                    selected.push(skill);
                    assert(selected@.map_values(|e: &MetaSkillEntry| *e) =~= sel_before.push(*skill));
                },
                None => {
                    let mut msg: Vec<char> = Vec::new();
                    extend_str(&mut msg, "Meta skill not found: ");
                    extend_str(&mut msg, skill_ids[i].as_str());
                    errors.push(string_of(&msg));
                    assert(lines(errors@) =~= err_before.push(meta_not_found(skill_ids@[i as int]@)));
                },
            }
            i += 1;
        }
        assert(skill_ids@.take(skill_ids.len() as int) =~= skill_ids@);
        if errors.len() > 0 {
            return Err(join_lines(&errors));
        }
        proof {
            sel = found_meta(repository.skills(), skill_ids@);
        }
    }
    assert(selection(*repository, skill_ids@) == Ok::<Seq<MetaSkillEntry>, Seq<char>>(sel));
    assert(selected@.map_values(|e: &MetaSkillEntry| *e) == sel);
    let mut steps: Vec<Step> = Vec::new();
    let mut k: usize = 0;
    while k < selected.len()
        invariant
            k <= selected.len(),
            selected@.map_values(|e: &MetaSkillEntry| *e) == sel,
            selection(*repository, skill_ids@) == Ok::<Seq<MetaSkillEntry>, Seq<char>>(sel),
            steps.len() == k,
            forall|j: int| 0 <= j < k ==> lookup(repository.contents(), #[trigger] sel[j].id@) is Some,
            forall|j: int|
                0 <= j < k ==> (#[trigger] steps@[j] matches Step::Write { id, name, content } && id@
                    == sel[j].id@ && name@ == sel[j].name@ && lookup(
                    repository.contents(),
                    sel[j].id@,
                ) == Some(content@)),
        decreases selected.len() - k,
    {
        let skill = selected[k];
        assert(sel[k as int] == *skill);
        match repository.get_skill_content(skill.id) {
            None => {
                proof {
                    lemma_first_without_content_step(repository.contents(), sel, k as int);
                }
                let mut msg: Vec<char> = Vec::new();
                extend_str(&mut msg, "meta skill content not available for: ");
                extend_str(&mut msg, skill.id);
                let ghost old_steps = steps@;
                let m = string_of(&msg);
                assert(m@ == "meta skill content not available for: "@ + sel[k as int].id@);
                steps.push(Step::Fail(m));
                assert(forall|j: int| 0 <= j < k ==> steps@[j] == old_steps[j]);
                assert(steps@[k as int] matches Step::Fail(e) && e@
                    == "meta skill content not available for: "@ + sel[k as int].id@);
                assert(are_setup_steps(repository.contents(), sel, steps@));
                assert(first_without_content(repository.contents(), sel) == k);
                let res: Result<Vec<Step>, String> = Ok(steps);
                assert(is_setup_plan(*repository, skill_ids@, res));
                return res;
            },
            Some(content) => {
                steps.push(
                    Step::Write {
                        id: String::from_str(skill.id),
                        name: String::from_str(skill.name),
                        content: String::from_str(content),
                    },
                );
            },
        }
        k += 1;
    }
    proof {
        lemma_first_without_content_all(repository.contents(), sel);
    }
    Ok(steps)
}

/// `id` is the id of one of the meta skills.
pub open spec fn names_meta(skills: Seq<MetaSkillEntry>, id: Seq<char>) -> bool {
    exists|j: int| 0 <= j < skills.len() && #[trigger] skills[j].id@ == id
}

proof fn lemma_find_meta(skills: Seq<MetaSkillEntry>, id: Seq<char>)
    ensures
        names_meta(skills, id) ==> (find_meta_skill(skills, id) matches Some(e) && e.id@ == id
            && skills.contains(e)),
        !names_meta(skills, id) ==> find_meta_skill(skills, id) is None,
    decreases skills.len(),
{
    if skills.len() > 0 {
        let t = skills.drop_first();
        lemma_find_meta(t, id);
        if names_meta(skills, id) && skills[0].id@ != id {
            let j = choose|j: int| 0 <= j < skills.len() && #[trigger] skills[j].id@ == id;
            assert(t[j - 1].id@ == id);
        }
        if names_meta(t, id) {
            let j = choose|j: int| 0 <= j < t.len() && #[trigger] t[j].id@ == id;
            assert(skills[j + 1].id@ == id);
        }
        if skills[0].id@ == id {
            assert(skills.contains(skills[0]));
        } else if names_meta(t, id) {
            let e = find_meta_skill(t, id)->0;
            let j = choose|j: int| 0 <= j < t.len() && t[j] == e;
            assert(skills[j + 1] == e);
        }
    }
}

proof fn lemma_found_meta_all(skills: Seq<MetaSkillEntry>, ids: Seq<String>)
    requires
        forall|k: int| 0 <= k < ids.len() ==> names_meta(skills, #[trigger] ids[k]@),
    ensures
        found_meta(skills, ids).len() == ids.len(),
        missing_meta(skills, ids).len() == 0,
        forall|k: int|
            0 <= k < ids.len() ==> #[trigger] found_meta(skills, ids)[k].id@ == ids[k]@
                && skills.contains(found_meta(skills, ids)[k]),
    decreases ids.len(),
{
    if ids.len() > 0 {
        let p = ids.drop_last();
        assert forall|k: int| 0 <= k < p.len() implies names_meta(skills, #[trigger] p[k]@) by {
            assert(p[k] == ids[k]);
        }
        lemma_found_meta_all(skills, p);
        assert(names_meta(skills, ids[ids.len() - 1]@));
        lemma_find_meta(skills, ids.last()@);
        assert forall|k: int| 0 <= k < ids.len() implies #[trigger] found_meta(skills, ids)[k].id@
            == ids[k]@ && skills.contains(found_meta(skills, ids)[k]) by {
            if k < p.len() {
                assert(found_meta(skills, ids)[k] == found_meta(skills, p)[k]);
                assert(p[k] == ids[k]);
            }
        }
    }
}

proof fn lemma_missing_meta_some(skills: Seq<MetaSkillEntry>, ids: Seq<String>, k: int)
    requires
        0 <= k < ids.len(),
        !names_meta(skills, ids[k]@),
    ensures
        missing_meta(skills, ids).len() > 0,
    decreases ids.len(),
{
    let p = ids.drop_last();
    if k < ids.len() - 1 {
        assert(p[k] == ids[k]);
        lemma_missing_meta_some(skills, p, k);
        lemma_find_meta(skills, ids.last()@);
    } else {
        lemma_find_meta(skills, ids.last()@);
    }
}

/// `setup` installs what was asked: with no ids every meta skill, in order;
/// when every id names a meta skill, exactly one meta skill per id, with that
/// id, in the order given; when some id names none, nothing is selected and
/// the command fails.
pub proof fn lemma_setup_selects(meta: MetaRepository, ids: Seq<String>)
    ensures
        ids.len() == 0 ==> selection(meta, ids) == Ok::<Seq<MetaSkillEntry>, Seq<char>>(
            meta.skills(),
        ),
        (forall|k: int| 0 <= k < ids.len() ==> names_meta(meta.skills(), #[trigger] ids[k]@))
            ==> (selection(meta, ids) matches Ok(s) && s.len() == (if ids.len() == 0 {
            meta.skills().len()
        } else {
            ids.len()
        }) && (ids.len() > 0 ==> forall|k: int|
            0 <= k < ids.len() ==> #[trigger] s[k].id@ == ids[k]@ && meta.skills().contains(
                s[k],
            ))),
        (exists|k: int| 0 <= k < ids.len() && !names_meta(meta.skills(), #[trigger] ids[k]@))
            ==> selection(meta, ids) is Err,
{
    if ids.len() > 0 {
        if forall|k: int| 0 <= k < ids.len() ==> names_meta(meta.skills(), #[trigger] ids[k]@) {
            lemma_found_meta_all(meta.skills(), ids);
        }
        if exists|k: int| 0 <= k < ids.len() && !names_meta(meta.skills(), #[trigger] ids[k]@) {
            let k = choose|k: int| 0 <= k < ids.len() && !names_meta(meta.skills(), #[trigger] ids[k]@);
            lemma_missing_meta_some(meta.skills(), ids, k);
        }
    }
}

/// When every requested id names a meta skill that has markdown, `setup`
/// plans one write per requested id, in the order given, each writing that
/// meta skill's markdown.
pub proof fn lemma_setup_writes_requested(
    meta: MetaRepository,
    ids: Seq<String>,
    res: Result<Vec<Step>, String>,
)
    requires
        is_setup_plan(meta, ids, res),
        ids.len() > 0,
        forall|k: int| 0 <= k < ids.len() ==> names_meta(meta.skills(), #[trigger] ids[k]@),
        forall|k: int| 0 <= k < ids.len() ==> lookup(meta.contents(), #[trigger] ids[k]@) is Some,
    ensures
        res matches Ok(steps) && steps.len() == ids.len() && forall|k: int|
            0 <= k < ids.len() ==> (#[trigger] steps@[k] matches Step::Write { id, content, .. }
                && id@ == ids[k]@ && lookup(meta.contents(), ids[k]@) == Some(content@)),
{
    lemma_setup_selects(meta, ids);
    lemma_found_meta_all(meta.skills(), ids);
    let s = found_meta(meta.skills(), ids);
    assert(selection(meta, ids) == Ok::<Seq<MetaSkillEntry>, Seq<char>>(s));
    let steps = res->Ok_0@;
    assert forall|k: int| 0 <= k < s.len() implies lookup(meta.contents(), #[trigger] s[k].id@)
        is Some by {
        assert(s[k].id@ == ids[k]@);
    }
    lemma_setup_outcome(
        meta.contents(),
        s,
        steps,
        Seq::new(steps.len(), |k: int| None::<String>),
    );
    assert forall|k: int| 0 <= k < ids.len() implies (#[trigger] steps[k] matches Step::Write {
        id,
        content,
        ..
    } && id@ == ids[k]@ && lookup(meta.contents(), ids[k]@) == Some(content@)) by {
        assert(s[k].id@ == ids[k]@);
    }
}

/// What to do next while installing the meta skills.
#[derive(Debug)]
pub enum SetupAction {
    /// Perform the write of step `k`, then ask again with its outcome added.
    Write(usize),
    /// Installing is over, with this result.
    Done(Result<(), String>),
}

/// The first position from `j` at which installing cannot simply go on: the
/// end, a failing step, a write not performed yet, or a write that failed.
pub open spec fn stop_point(steps: Seq<Step>, outcomes: Seq<Option<String>>, j: int) -> int
    decreases steps.len() - j,
{
    if j < 0 || j >= steps.len() || steps[j] is Fail || j >= outcomes.len() || outcomes[j] is Some {
        j
    } else {
        stop_point(steps, outcomes, j + 1)
    }
}

/// The action after the writes whose outcomes are given (in step order):
/// the next write while every earlier write succeeded, else the end, failing
/// with the first error.
pub open spec fn is_next_action(
    steps: Seq<Step>,
    outcomes: Seq<Option<String>>,
    action: SetupAction,
) -> bool {
    let p = stop_point(steps, outcomes, 0);
    if p >= steps.len() {
        action matches SetupAction::Done(Ok(()))
    } else {
        match steps[p] {
            Step::Fail(m) => action matches SetupAction::Done(Err(e)) && e@ == m@,
            Step::Write { .. } => if p < outcomes.len() {
                action matches SetupAction::Done(Err(e)) && outcomes[p] matches Some(o) && e@
                    == o@
            } else {
                action matches SetupAction::Write(k) && k == p
            },
        }
    }
}

/// Decides the next action of `setup`, given the steps and the outcomes of
/// the writes performed so far.
pub fn next(steps: &Vec<Step>, outcomes: &Vec<Option<String>>) -> (res: SetupAction)
    ensures
        is_next_action(steps@, outcomes@, res),
{
    let mut j: usize = 0;
    while j < steps.len()
        invariant
            j <= steps.len(),
            stop_point(steps@, outcomes@, 0) == stop_point(steps@, outcomes@, j as int),
        decreases steps.len() - j,
    {
        match &steps[j] {
            Step::Fail(m) => {
                return SetupAction::Done(Err(m.clone()));
            },
            Step::Write { .. } => {
                if j >= outcomes.len() {
                    return SetupAction::Write(j);
                }
                match &outcomes[j] {
                    Some(e) => {
                        return SetupAction::Done(Err(e.clone()));
                    },
                    None => {},
                }
            },
        }
        j += 1;
    }
    SetupAction::Done(Ok(()))
}

/// When every selected meta skill has markdown, the steps write each of them,
/// in order, with its markdown; and once all those writes have succeeded,
/// `setup` is done with success.
pub proof fn lemma_setup_outcome(
    contents: Seq<(Seq<char>, Seq<char>)>,
    selected: Seq<MetaSkillEntry>,
    steps: Seq<Step>,
    outcomes: Seq<Option<String>>,
)
    requires
        are_setup_steps(contents, selected, steps),
        forall|k: int| 0 <= k < selected.len() ==> lookup(contents, #[trigger] selected[k].id@) is Some,
        outcomes.len() == steps.len(),
        forall|k: int| 0 <= k < outcomes.len() ==> #[trigger] outcomes[k] is None,
    ensures
        steps.len() == selected.len(),
        forall|k: int|
            0 <= k < steps.len() ==> (#[trigger] steps[k] matches Step::Write { id, name, content }
                && id@ == selected[k].id@ && name@ == selected[k].name@ && lookup(
                contents,
                selected[k].id@,
            ) == Some(content@)),
        stop_point(steps, outcomes, 0) == steps.len(),
{
    lemma_first_without_content_all(contents, selected);
    lemma_stop_point_after_writes(steps, outcomes, 0);
}

proof fn lemma_stop_point_after_writes(steps: Seq<Step>, outcomes: Seq<Option<String>>, j: int)
    requires
        0 <= j <= steps.len(),
        outcomes.len() == steps.len(),
        forall|k: int| 0 <= k < steps.len() ==> #[trigger] steps[k] is Write,
        forall|k: int| 0 <= k < outcomes.len() ==> #[trigger] outcomes[k] is None,
    ensures
        stop_point(steps, outcomes, j) == steps.len(),
    decreases steps.len() - j,
{
    if j < steps.len() {
        assert(steps[j] is Write);
        assert(outcomes[j] is None);
        lemma_stop_point_after_writes(steps, outcomes, j + 1);
    }
}

/// While every write so far succeeded, the next action is the next write.
pub proof fn lemma_setup_writes_in_order(
    steps: Seq<Step>,
    outcomes: Seq<Option<String>>,
    j: int,
)
    requires
        0 <= j <= outcomes.len() < steps.len(),
        forall|k: int| 0 <= k <= outcomes.len() ==> #[trigger] steps[k] is Write,
        forall|k: int| 0 <= k < outcomes.len() ==> #[trigger] outcomes[k] is None,
    ensures
        stop_point(steps, outcomes, j) == outcomes.len(),
    decreases steps.len() - j,
{
    if j < outcomes.len() {
        assert(steps[j] is Write);
        assert(outcomes[j] is None);
        lemma_setup_writes_in_order(steps, outcomes, j + 1);
    }
}

} // verus!
