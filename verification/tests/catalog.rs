use awesome_skills_cli::commands::catalog_for_agent::{run, summary};
use awesome_skills_cli::repository::{Repository, SkillEntry};

const TOTAL_SKILLS: usize = 1329;

fn catalog() -> Repository {
    let skills = (0..TOTAL_SKILLS)
        .map(|i| SkillEntry {
            id: format!("skill-{i:04}"),
            path: format!("skills/skill-{i:04}"),
            category: if i % 2 == 0 { "development" } else { "testing" }.to_string(),
            name: format!("Skill {i}"),
            description: format!("Description of skill {i}"),
            risk: "safe".to_string(),
            source: "community".to_string(),
            date_added: None,
        })
        .collect();
    Repository::new(skills, Vec::new(), Vec::new())
}

/// The ids of a page, and its summary line.
fn page(repo: &Repository, limit: usize, offset: usize) -> (Vec<String>, String) {
    let ids = run(repo, limit, offset)
        .iter()
        .map(|e| e.id.to_string())
        .collect();
    (ids, summary(repo, limit, offset))
}

fn parse_stderr_metadata(stderr: &str) -> (&str, &str, &str, &str, &str) {
    let field = |name: &str| {
        stderr
            .split(name)
            .nth(1)
            .and_then(|s| s.split_whitespace().next())
            .expect("field in summary")
    };
    (
        field("total="),
        field("offset="),
        field("limit="),
        field("returned="),
        field("has_more="),
    )
}

#[test]
fn basic_pagination_limit_5_offset_0() {
    let repo = catalog();
    let (entries, stderr) = page(&repo, 5, 0);
    assert_eq!(entries.len(), 5);
    let (total, _, _, returned, has_more) = parse_stderr_metadata(&stderr);
    assert_eq!(total, TOTAL_SKILLS.to_string());
    assert_eq!(returned, "5");
    assert_eq!(has_more, "true");
}

#[test]
fn basic_pagination_limit_1_offset_0() {
    let repo = catalog();
    let (entries, stderr) = page(&repo, 1, 0);
    assert_eq!(entries.len(), 1);
    let (total, _, _, returned, _) = parse_stderr_metadata(&stderr);
    assert_eq!(total, TOTAL_SKILLS.to_string());
    assert_eq!(returned, "1");
}

#[test]
fn basic_pagination_different_items_at_different_offsets() {
    let repo = catalog();
    let (ids0, _) = page(&repo, 2, 0);
    let (ids5, _) = page(&repo, 2, 5);
    assert_ne!(ids0, ids5, "items at offset 5 differ from offset 0");
}

#[test]
fn metadata_stderr_contains_total() {
    let repo = catalog();
    let (_, stderr) = page(&repo, 5, 0);
    assert!(stderr.contains(&format!("total={}", TOTAL_SKILLS)));
}

#[test]
fn metadata_returned_matches_json_entries() {
    let repo = catalog();
    let (entries, stderr) = page(&repo, 7, 0);
    let (_, _, _, returned, _) = parse_stderr_metadata(&stderr);
    assert_eq!(returned, entries.len().to_string());
}

#[test]
fn metadata_offset_matches_requested() {
    let repo = catalog();
    let (_, stderr) = page(&repo, 3, 42);
    let (_, offset, _, _, _) = parse_stderr_metadata(&stderr);
    assert_eq!(offset, "42");
}

#[test]
fn metadata_limit_matches_requested() {
    let repo = catalog();
    let (_, stderr) = page(&repo, 8, 0);
    let (_, _, limit, _, _) = parse_stderr_metadata(&stderr);
    assert_eq!(limit, "8");
}

#[test]
fn edge_case_offset_past_total() {
    let repo = catalog();
    let (entries, stderr) = page(&repo, 10, 9999);
    assert_eq!(entries.len(), 0);
    let (_, _, _, returned, has_more) = parse_stderr_metadata(&stderr);
    assert_eq!(returned, "0");
    assert_eq!(has_more, "false");
}

#[test]
fn edge_case_limit_larger_than_remaining() {
    let repo = catalog();
    let offset = TOTAL_SKILLS - 1;
    let (entries, stderr) = page(&repo, 9999, offset);
    assert_eq!(entries.len(), 1);
    let (_, _, _, returned, has_more) = parse_stderr_metadata(&stderr);
    assert_eq!(returned, "1");
    assert_eq!(has_more, "false");
}

#[test]
fn edge_case_large_offset_near_total() {
    let repo = catalog();
    let offset = TOTAL_SKILLS - 4;
    let expected_count = TOTAL_SKILLS - offset;
    let (entries, stderr) = page(&repo, 10, offset);
    assert_eq!(entries.len(), expected_count);
    let (_, _, _, returned, has_more) = parse_stderr_metadata(&stderr);
    assert_eq!(returned, expected_count.to_string());
    assert_eq!(has_more, "false");
}

#[test]
fn second_page_differs_from_first() {
    let repo = catalog();
    let (first, _) = page(&repo, 3, 0);
    let (second, _) = page(&repo, 3, 3);
    assert_ne!(first[0], second[0], "second page first item differs");
}

#[test]
fn stdout_valid_json_array_when_empty() {
    let repo = catalog();
    let (entries, _) = page(&repo, 5, 9999);
    assert!(entries.is_empty());
}

#[test]
fn stderr_metadata_line_starts_with_total() {
    let repo = catalog();
    let (_, stderr) = page(&repo, 1, 0);
    assert!(stderr.trim().starts_with("total="));
}

#[test]
fn consecutive_pages_cover_all_items_no_duplicates() {
    let repo = catalog();
    let limit = 500;
    let mut all_ids: Vec<String> = Vec::new();
    let mut offset = 0;
    loop {
        let (entries, stderr) = page(&repo, limit, offset);
        all_ids.extend(entries);
        let (_, _, _, _, has_more) = parse_stderr_metadata(&stderr);
        if has_more != "true" {
            break;
        }
        offset += limit;
    }
    assert_eq!(all_ids.len(), TOTAL_SKILLS, "total entries across all pages");
    let mut unique = all_ids.clone();
    unique.sort();
    unique.dedup();
    assert_eq!(unique.len(), TOTAL_SKILLS, "no duplicate IDs");
}

#[test]
fn summary_line_has_exact_format() {
    let repo = catalog();
    assert_eq!(
        summary(&repo, 500, 1000),
        "total=1329 offset=1000 limit=500 returned=329 has_more=false"
    );
    assert_eq!(
        summary(&repo, usize::MAX, usize::MAX),
        format!("total=1329 offset={0} limit={0} returned=0 has_more=false", usize::MAX)
    );
}
