//! The `info` command: a skill's metadata and markdown.
use vstd::prelude::*;

use super::{lines, CommandOutput};
use crate::keyed::lookup;
use crate::repository::{
    find_skill, not_found_message, resolved_id, suggestion, Repository, SkillEntry,
};
use crate::text::{chars_of, extend_str, string_of};

verus! {

/// `label` followed by `value`.
pub fn labeled(label: &str, value: &str) -> (res: String)
    ensures
        res@ == label@ + value@,
{
    let mut line: Vec<char> = Vec::new();
    extend_str(&mut line, label);
    extend_str(&mut line, value);
    string_of(&line)
}

/// The metadata lines `info` prints for a skill, ending with an empty line.
pub open spec fn info_lines(e: SkillEntry) -> Seq<Seq<char>> {
    seq![
        "ID:          "@ + e.id@,
        "Name:        "@ + e.name@,
        "Category:    "@ + e.category@,
        "Description: "@ + e.description@,
        "Risk:        "@ + e.risk@,
        "Source:      "@ + e.source@,
    ] + match e.date_added {
        Some(d) => seq!["Date added:  "@ + d@],
        None => Seq::<Seq<char>>::empty(),
    } + seq![Seq::<char>::empty()]
}

/// The lines that print the markdown: the markdown, and an empty line when it
/// does not already end with a newline.
pub open spec fn content_lines(c: Seq<char>) -> Seq<Seq<char>> {
    if c.len() > 0 && c.last() == '\n' {
        seq![c]
    } else {
        seq![c, Seq::<char>::empty()]
    }
}

/// What `info` prints for `id`.
pub open spec fn is_info_output(repo: Repository, id: Seq<char>, out: CommandOutput) -> bool {
    let resolved = resolved_id(repo.aliases(), id);
    match find_skill(repo.skills(), resolved) {
        None => {
            &&& lines(out.stdout@) == Seq::<Seq<char>>::empty()
            &&& lines(out.stderr@) == Seq::<Seq<char>>::empty()
            &&& out.error matches Some(e) && e@ == not_found_message(
                id,
                suggestion(repo.skills(), repo.aliases(), id),
            )
        },
        Some(e) => {
            &&& lines(out.stderr@) == info_lines(e)
            &&& match lookup(repo.contents(), resolved) {
                None => {
                    &&& lines(out.stdout@) == Seq::<Seq<char>>::empty()
                    &&& out.error matches Some(m) && m@ == "Skill content not available for: "@ + id
                },
                Some(c) => lines(out.stdout@) == content_lines(c) && out.error is None,
            }
        },
    }
}

/// Shows a skill's metadata (standard error) and its markdown (standard output).
pub fn run(repository: &Repository, skill_id: &str) -> (res: CommandOutput)
    ensures
        is_info_output(*repository, skill_id@, res),
{
    let skill = match repository.get_skill(skill_id) {
        Some(s) => s,
        None => {
            let out = CommandOutput {
                stdout: Vec::new(),
                stderr: Vec::new(),
                error: Some(repository.not_found_error(skill_id)),
            };
            assert(lines(out.stdout@) =~= Seq::<Seq<char>>::empty());
            assert(lines(out.stderr@) =~= Seq::<Seq<char>>::empty());
            return out;
        },
    };
    let mut stderr: Vec<String> = Vec::new();
    stderr.push(labeled("ID:          ", skill.id.as_str()));
    stderr.push(labeled("Name:        ", skill.name.as_str()));
    stderr.push(labeled("Category:    ", skill.category.as_str()));
    stderr.push(labeled("Description: ", skill.description.as_str()));
    stderr.push(labeled("Risk:        ", skill.risk.as_str()));
    stderr.push(labeled("Source:      ", skill.source.as_str()));
    match &skill.date_added {
        Some(d) => {
            stderr.push(labeled("Date added:  ", d.as_str()));
        },
        None => {},
    }
    stderr.push(String::new());
    assert(lines(stderr@) =~= info_lines(*skill));
    match repository.get_skill_content(skill_id) {
        None => {
            let out = CommandOutput {
                stdout: Vec::new(),
                stderr,
                error: Some(labeled("Skill content not available for: ", skill_id)),
            };
            assert(lines(out.stdout@) =~= Seq::<Seq<char>>::empty());
            out
        },
        Some(content) => {
            let mut stdout: Vec<String> = Vec::new();
            let cs = chars_of(content);
            let ends_with_newline = cs.len() > 0 && cs[cs.len() - 1] == '\n';
            stdout.push(string_of(&cs));
            if !ends_with_newline {
                stdout.push(String::new());
            }
            assert(lines(stdout@) =~= content_lines(content@));
            CommandOutput { stdout, stderr, error: None }
        },
    }
}

} // verus!
