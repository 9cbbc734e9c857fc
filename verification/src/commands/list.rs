//! The `list` command: a page of the catalog, for people to browse.
use vstd::prelude::*;

use super::{lines, page_of, CommandOutput};
use crate::repository::{entries, in_category, Repository, SkillEntry};
use crate::text::{chars_of, decimal, extend_str, push_decimal, string_of};

verus! {

/// The first line of the listing.
pub open spec fn list_header() -> Seq<char> {
    "id | category | risk | description"@
}

/// `s` with each newline replaced by a space.
pub open spec fn one_line(s: Seq<char>) -> Seq<char> {
    s.map_values(|c: char| if c == '\n' { ' ' } else { c })
}

/// The listing line of a skill.
pub open spec fn list_row(e: SkillEntry) -> Seq<char> {
    e.id@ + " | "@ + e.category@ + " | "@ + e.risk@ + " | "@ + one_line(e.description@)
}

/// The summary line printed after the listing.
pub open spec fn metadata_line(
    total: nat,
    offset: nat,
    limit: nat,
    returned: nat,
    has_more: bool,
) -> Seq<char> {
    "total="@ + decimal(total) + " offset="@ + decimal(offset) + " limit="@ + decimal(limit)
        + " returned="@ + decimal(returned) + " has_more="@ + if has_more {
        "true"@
    } else {
        "false"@
    }
}

/// The skills `list` draws from: one category, or all of them.
pub open spec fn listed(repo: Repository, category: Option<&str>) -> Seq<SkillEntry> {
    match category {
        Some(c) => in_category(repo.skills(), c@),
        None => repo.skills(),
    }
}

/// What `list` prints.
pub open spec fn is_list_output(
    repo: Repository,
    category: Option<&str>,
    limit: Option<usize>,
    offset: usize,
    out: CommandOutput,
) -> bool {
    let all = listed(repo, category);
    let page = page_of(
        all,
        offset as nat,
        match limit {
            Some(l) => l as nat,
            None => usize::MAX as nat,
        },
    );
    &&& lines(out.stdout@) == seq![list_header()] + page.map_values(|e: SkillEntry| list_row(e))
    &&& lines(out.stderr@) == seq![
        metadata_line(
            all.len(),
            offset as nat,
            match limit {
                Some(l) => l as nat,
                None => page.len(),
            },
            page.len(),
            offset + page.len() < all.len(),
        ),
    ]
    &&& out.error is None
}

proof fn lemma_in_category_len(skills: Seq<SkillEntry>, category: Option<&str>)
    ensures
        match category {
            Some(c) => in_category(skills, c@).len() <= skills.len(),
            None => true,
        },
    decreases skills.len(),
{
    if skills.len() > 0 {
        lemma_in_category_len(skills.drop_last(), category);
    }
}

/// What `list` prints, in terms of the skills it draws from (those of the
/// category when one is given, else all): the header, then one row per skill
/// starting at the `offset`-th of them, row `k` showing the `(offset + k)`-th,
/// as many rows as the limit allows and the skills that remain; the summary
/// counts the skills drawn from and the rows printed.
pub proof fn lemma_list_rows(
    repo: Repository,
    category: Option<&str>,
    limit: Option<usize>,
    offset: usize,
    out: CommandOutput,
)
    requires
        is_list_output(repo, category, limit, offset, out),
        repo.skills().len() <= usize::MAX,
    ensures
        ({
            let pool = match category {
                Some(c) => in_category(repo.skills(), c@),
                None => repo.skills(),
            };
            let rows = lines(out.stdout@).len() - 1;
            let room = if offset >= pool.len() {
                0
            } else {
                pool.len() - offset
            };
            &&& lines(out.stdout@).len() >= 1
            &&& lines(out.stdout@)[0] == list_header()
            &&& rows == match limit {
                Some(l) => if l < room {
                    l as int
                } else {
                    room
                },
                None => room,
            }
            &&& forall|k: int|
                0 <= k < rows ==> #[trigger] lines(out.stdout@)[k + 1] == list_row(
                    pool[offset + k],
                )
            &&& lines(out.stderr@) == seq![
                metadata_line(
                    pool.len(),
                    offset as nat,
                    match limit {
                        Some(l) => l as nat,
                        None => rows as nat,
                    },
                    rows as nat,
                    offset + rows < pool.len(),
                ),
            ]
            &&& out.error is None
        }),
{
    let pool = listed(repo, category);
    lemma_in_category_len(repo.skills(), category);
    let lim: nat = match limit {
        Some(l) => l as nat,
        None => usize::MAX as nat,
    };
    let page = page_of(pool, offset as nat, lim);
    let shown = seq![list_header()] + page.map_values(|e: SkillEntry| list_row(e));
    assert(lines(out.stdout@) == shown);
    assert(shown.len() == page.len() + 1);
    assert forall|k: int| 0 <= k < page.len() implies #[trigger] shown[k + 1] == list_row(
        pool[offset + k],
    ) by {
        assert(shown[k + 1] == list_row(page[k]));
    }
}

/// The listing line of `e`.
fn list_row_exec(e: &SkillEntry) -> (res: String)
    ensures
        res@ == list_row(*e),
{
    let mut line: Vec<char> = Vec::new();
    extend_str(&mut line, e.id.as_str());
    extend_str(&mut line, " | ");
    extend_str(&mut line, e.category.as_str());
    extend_str(&mut line, " | ");
    extend_str(&mut line, e.risk.as_str());
    extend_str(&mut line, " | ");
    let ghost before = line@;
    let desc = chars_of(e.description.as_str());
    let mut i: usize = 0;
    while i < desc.len()
        invariant
            i <= desc.len(),
            line@ == before + one_line(desc@.take(i as int)),
        decreases desc.len() - i,
    {
        let c = desc[i];
        line.push(
            if c == '\n' {
                ' '
            } else {
                c
            },
        );
        assert(one_line(desc@.take(i + 1)) =~= one_line(desc@.take(i as int)).push(
            if c == '\n' {
                ' '
            } else {
                c
            },
        ));
        i += 1;
    }
    assert(desc@.take(desc.len() as int) =~= desc@);
    assert(line@ =~= list_row(*e));
    string_of(&line)
}

/// The summary line.
pub fn metadata_line_exec(
    total: usize,
    offset: usize,
    limit: usize,
    returned: usize,
    has_more: bool,
) -> (res: String)
    ensures
        res@ == metadata_line(total as nat, offset as nat, limit as nat, returned as nat, has_more),
{
    let mut line: Vec<char> = Vec::new();
    extend_str(&mut line, "total=");
    push_decimal(&mut line, total);
    extend_str(&mut line, " offset=");
    push_decimal(&mut line, offset);
    extend_str(&mut line, " limit=");
    push_decimal(&mut line, limit);
    extend_str(&mut line, " returned=");
    push_decimal(&mut line, returned);
    extend_str(&mut line, " has_more=");
    if has_more {
        extend_str(&mut line, "true");
    } else {
        extend_str(&mut line, "false");
    }
    assert(line@ =~= metadata_line(
        total as nat,
        offset as nat,
        limit as nat,
        returned as nat,
        has_more,
    ));
    string_of(&line)
}

/// All skills of the catalog, by reference.
fn all_refs(repository: &Repository) -> (res: Vec<&SkillEntry>)
    ensures
        entries(res@) == repository.skills(),
{
    let all = repository.all_skills();
    let mut res: Vec<&SkillEntry> = Vec::new();
    let mut i: usize = 0;
    while i < all.len()
        invariant
            i <= all@.len(),
            all@ == repository.skills(),
            entries(res@) == all@.take(i as int),
        decreases all.len() - i,
    {
        let ghost before = entries(res@);
        res.push(&all[i]);
        assert(entries(res@) =~= before.push(all@[i as int]));
        assert(all@.take(i + 1) =~= all@.take(i as int).push(all@[i as int]));
        i += 1;
    }
    assert(all@.take(all.len() as int) =~= all@);
    res
}

/// Lists a page of the skills (of one category, if given): a header and one
/// line per skill on standard output, then a summary on standard error.
pub fn run(
    repository: &Repository,
    category: Option<&str>,
    limit: Option<usize>,
    offset: usize,
) -> (res: CommandOutput)
    ensures
        is_list_output(*repository, category, limit, offset, res),
{
    let skills: Vec<&SkillEntry> = match category {
        Some(c) => repository.skills_by_category(c),
        None => all_refs(repository),
    };
    let ghost all = listed(*repository, category);
    assert(entries(skills@) == all);
    let total = skills.len();
    let max_items: usize = match limit {
        Some(l) => l,
        None => usize::MAX,
    };
    let ghost page = page_of(all, offset as nat, max_items as nat);
    let mut stdout: Vec<String> = Vec::new();
    let header = chars_of("id | category | risk | description");
    stdout.push(string_of(&header));
    let start: usize = if offset >= total {
        total
    } else {
        offset
    };
    let end: usize = if offset >= total {
        total
    } else if max_items >= total - offset {
        total
    } else {
        offset + max_items
    };
    assert(page =~= all.subrange(start as int, end as int));
    let mut k: usize = start;
    while k < end
        invariant
            start <= k <= end <= total,
            total == skills.len(),
            entries(skills@) == all,
            lines(stdout@) == seq![list_header()] + all.subrange(start as int, k as int).map_values(
                |e: SkillEntry| list_row(e),
            ),
        decreases end - k,
    {
        assert(entries(skills@)[k as int] == *skills@[k as int]);
        let ghost before = lines(stdout@);
        stdout.push(list_row_exec(skills[k]));
        assert(lines(stdout@) =~= before.push(list_row(all[k as int])));
        assert(all.subrange(start as int, k + 1).map_values(|e: SkillEntry| list_row(e))
            =~= all.subrange(start as int, k as int).map_values(|e: SkillEntry| list_row(e)).push(
            list_row(all[k as int]),
        ));
        k += 1;
    }
    assert(lines(stdout@) =~= seq![list_header()] + page.map_values(|e: SkillEntry| list_row(e)));
    let returned = end - start;
    let has_more = offset + returned < total;
    let effective_limit = match limit {
        Some(l) => l,
        None => returned,
    };
    let mut stderr: Vec<String> = Vec::new();
    stderr.push(metadata_line_exec(total, offset, effective_limit, returned, has_more));
    assert(lines(stderr@) =~= seq![
        metadata_line(
            total as nat,
            offset as nat,
            effective_limit as nat,
            returned as nat,
            has_more,
        ),
    ]);
    CommandOutput { stdout, stderr, error: None }
}

} // verus!
