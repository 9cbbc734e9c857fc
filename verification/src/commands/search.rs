//! The `search` command: matching skills, best first.
use vstd::prelude::*;

use super::{lines, CommandOutput};
use crate::repository::{
    entries, format_skill_row, search_order, skill_row, Repository, SkillEntry,
};
use crate::text::{decimal, extend_str, push_decimal, string_of};

verus! {

/// The skills `search` finds for `query`, best match first.
pub open spec fn found(repo: Repository, query: Seq<char>) -> Seq<SkillEntry> {
    search_order(repo.skills(), query).map_values(|i: int| repo.skills()[i])
}

/// The line printed when nothing matches.
pub open spec fn no_match_line(query: Seq<char>) -> Seq<char> {
    "No skills matching \""@ + query + "\"."@
}

/// The closing line: how many skills matched.
pub open spec fn count_line(n: nat, query: Seq<char>) -> Seq<char> {
    decimal(n) + " result"@ + (if n == 1 {
        ""@
    } else {
        "s"@
    }) + " for \""@ + query + "\"."@
}

/// What `search` prints.
pub open spec fn is_search_output(repo: Repository, query: Seq<char>, out: CommandOutput) -> bool {
    let f = found(repo, query);
    &&& lines(out.stdout@) == Seq::<Seq<char>>::empty()
    &&& out.error is None
    &&& if f.len() == 0 {
        lines(out.stderr@) == seq![no_match_line(query)]
    } else {
        lines(out.stderr@) == f.map_values(
            |e: SkillEntry| skill_row(e.id@, e.category@, e.description@, e.risk@),
        ) + seq![Seq::<char>::empty(), count_line(f.len(), query)]
    }
}

/// Searches the catalog and prints one row per match on standard error,
/// followed by an empty line and the number of matches.
pub fn run(repository: &Repository, query: &str) -> (res: CommandOutput)
    ensures
        is_search_output(*repository, query@, res),
{
    let results = repository.search(query);
    let ghost f = found(*repository, query@);
    assert(entries(results@) == f);
    let mut stderr: Vec<String> = Vec::new();
    if results.len() == 0 {
        let mut line: Vec<char> = Vec::new();
        extend_str(&mut line, "No skills matching \"");
        extend_str(&mut line, query);
        extend_str(&mut line, "\".");
        stderr.push(string_of(&line));
        let out = CommandOutput { stdout: Vec::new(), stderr, error: None };
        assert(lines(out.stdout@) =~= Seq::<Seq<char>>::empty());
        assert(lines(out.stderr@) =~= seq![no_match_line(query@)]);
        return out;
    }
    let mut i: usize = 0;
    while i < results.len()
        invariant
            i <= results.len(),
            entries(results@) == f,
            lines(stderr@) == f.take(i as int).map_values(
                |e: SkillEntry| skill_row(e.id@, e.category@, e.description@, e.risk@),
            ),
        decreases results.len() - i,
    {
        let e = results[i];
        assert(f[i as int] == *e);
        let ghost before = lines(stderr@);
        stderr.push(
            format_skill_row(
                e.id.as_str(),
                e.category.as_str(),
                e.description.as_str(),
                e.risk.as_str(),
            ),
        );
        assert(lines(stderr@) =~= before.push(
            skill_row(e.id@, e.category@, e.description@, e.risk@),
        ));
        assert(f.take(i + 1).map_values(
            |e: SkillEntry| skill_row(e.id@, e.category@, e.description@, e.risk@),
        ) =~= f.take(i as int).map_values(
            |e: SkillEntry| skill_row(e.id@, e.category@, e.description@, e.risk@),
        ).push(skill_row(e.id@, e.category@, e.description@, e.risk@)));
        i += 1;
    }
    assert(f.take(results.len() as int) =~= f);
    let ghost rows = lines(stderr@);
    stderr.push(String::new());
    let mut last: Vec<char> = Vec::new();
    push_decimal(&mut last, results.len());
    extend_str(&mut last, " result");
    if results.len() != 1 {
        extend_str(&mut last, "s");
    }
    extend_str(&mut last, " for \"");
    extend_str(&mut last, query);
    extend_str(&mut last, "\".");
    assert(last@ =~= count_line(f.len(), query@)) by {
        if results.len() == 1 {
            assert(last@ =~= decimal(1) + " result"@ + " for \""@ + query@ + "\"."@);
            assert(" result"@ + ""@ =~= " result"@) by {
                reveal_strlit("");
            }
        }
    }
    stderr.push(string_of(&last));
    let out = CommandOutput { stdout: Vec::new(), stderr, error: None };
    assert(lines(out.stdout@) =~= Seq::<Seq<char>>::empty());
    assert(lines(out.stderr@) =~= rows + seq![Seq::<char>::empty(), count_line(f.len(), query@)]);
    out
}

} // verus!
