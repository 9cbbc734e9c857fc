use awesome_skills_cli::commands::{
    add, batch_result, catalog_for_agent, info, join_lines, list, parse_limit, search, version,
    Step,
};
use awesome_skills_cli::repository::{Repository, SkillEntry};

fn skill(id: &str, category: &str, description: &str, date: Option<&str>) -> SkillEntry {
    SkillEntry {
        id: id.to_string(),
        path: format!("skills/{id}"),
        category: category.to_string(),
        name: format!("{id} name"),
        description: description.to_string(),
        risk: "safe".to_string(),
        source: "community".to_string(),
        date_added: date.map(|d| d.to_string()),
    }
}

fn catalog() -> Repository {
    Repository::new(
        vec![
            skill("ab-test-setup", "marketing", "A/B tests\nfor pages", Some("2024-01-01")),
            skill("agentmail", "ai", "Email for agents", None),
            skill("seo-audit", "marketing", "Audit SEO", None),
        ],
        vec![("ab".to_string(), "ab-test-setup".to_string())],
        vec![
            ("ab-test-setup".to_string(), "# AB\n".to_string()),
            ("agentmail".to_string(), "# Mail".to_string()),
        ],
    )
}

#[test]
fn parse_limit_accepts_positive_numbers() {
    assert_eq!(parse_limit("5"), Ok(5));
    assert_eq!(parse_limit("+7"), Ok(7));
    assert_eq!(parse_limit("0"), Err("--limit must be at least 1".to_string()));
    assert_eq!(parse_limit("-1"), Err("invalid value '-1' for '--limit'".to_string()));
    assert_eq!(parse_limit(""), Err("invalid value '' for '--limit'".to_string()));
    assert_eq!(parse_limit("+"), Err("invalid value '+' for '--limit'".to_string()));
    assert_eq!(parse_limit(" 3"), Err("invalid value ' 3' for '--limit'".to_string()));
    assert_eq!(
        parse_limit("99999999999999999999999"),
        Err("invalid value '99999999999999999999999' for '--limit'".to_string())
    );
    assert_eq!(parse_limit(&usize::MAX.to_string()), Ok(usize::MAX));
}

#[test]
fn join_lines_and_batch_result() {
    assert_eq!(join_lines(&vec![]), "");
    assert_eq!(join_lines(&vec!["a".to_string()]), "a");
    assert_eq!(join_lines(&vec!["a".to_string(), "".to_string(), "c".to_string()]), "a\n\nc");
    assert_eq!(batch_result(&vec![]), Ok(()));
    assert_eq!(
        batch_result(&vec!["x".to_string(), "y".to_string()]),
        Err("x\ny".to_string())
    );
}

#[test]
fn version_prints_name_and_version() {
    let out = version::run("1.2.3");
    assert!(out.stdout.is_empty());
    assert_eq!(out.stderr, vec!["awesome-skills-cli v1.2.3".to_string()]);
    assert!(out.error.is_none());
}

#[test]
fn platform_suffixes() {
    assert_eq!(version::current_platform_suffix("linux", "x86_64"), "linux-x64");
    assert_eq!(version::current_platform_suffix("linux", "aarch64"), "linux-arm64");
    assert_eq!(version::current_platform_suffix("macos", "x86_64"), "macos-x64");
    assert_eq!(version::current_platform_suffix("macos", "aarch64"), "macos-arm64");
    assert_eq!(version::current_platform_suffix("windows", "x86_64"), "windows-x64.exe");
    assert_eq!(version::current_platform_suffix("windows", "aarch64"), "unknown");
    assert_eq!(version::current_platform_suffix("freebsd", "x86_64"), "unknown");
}

#[test]
fn info_prints_metadata_and_markdown() {
    let repo = catalog();
    let out = info::run(&repo, "ab");
    assert_eq!(
        out.stderr,
        vec![
            "ID:          ab-test-setup",
            "Name:        ab-test-setup name",
            "Category:    marketing",
            "Description: A/B tests\nfor pages",
            "Risk:        safe",
            "Source:      community",
            "Date added:  2024-01-01",
            "",
        ]
    );
    assert_eq!(out.stdout, vec!["# AB\n".to_string()]);
    assert!(out.error.is_none());
}

#[test]
fn info_without_date_adds_a_newline_after_markdown() {
    let repo = catalog();
    let out = info::run(&repo, "agentmail");
    assert!(!out.stderr.iter().any(|l| l.starts_with("Date added:")));
    assert_eq!(out.stdout, vec!["# Mail".to_string(), String::new()]);
}

#[test]
fn info_reports_unknown_skill_and_missing_markdown() {
    let repo = catalog();
    let out = info::run(&repo, "agentmial");
    assert!(out.stdout.is_empty() && out.stderr.is_empty());
    assert_eq!(
        out.error,
        Some("Skill not found: agentmial\nDid you mean: agentmail?".to_string())
    );
    let out = info::run(&repo, "seo-audit");
    assert_eq!(out.stderr.len(), 7);
    assert!(out.stdout.is_empty());
    assert_eq!(
        out.error,
        Some("Skill content not available for: seo-audit".to_string())
    );
}

#[test]
fn list_prints_heading_rows_and_metadata() {
    let repo = catalog();
    let out = list::run(&repo, None, None, 0);
    assert_eq!(
        out.stdout,
        vec![
            "id | category | risk | description",
            "ab-test-setup | marketing | safe | A/B tests for pages",
            "agentmail | ai | safe | Email for agents",
            "seo-audit | marketing | safe | Audit SEO",
        ]
    );
    assert_eq!(
        out.stderr,
        vec!["total=3 offset=0 limit=3 returned=3 has_more=false".to_string()]
    );
}

#[test]
fn list_pages_and_filters() {
    let repo = catalog();
    let out = list::run(&repo, None, Some(1), 1);
    assert_eq!(out.stdout.len(), 2);
    assert_eq!(out.stdout[1], "agentmail | ai | safe | Email for agents");
    assert_eq!(out.stderr, vec!["total=3 offset=1 limit=1 returned=1 has_more=true".to_string()]);

    let out = list::run(&repo, Some("marketing"), Some(5), 0);
    assert_eq!(out.stdout.len(), 3);
    assert_eq!(out.stderr, vec!["total=2 offset=0 limit=5 returned=2 has_more=false".to_string()]);

    let out = list::run(&repo, Some("nonexistent"), None, 0);
    assert_eq!(out.stdout, vec!["id | category | risk | description".to_string()]);
    assert_eq!(out.stderr, vec!["total=0 offset=0 limit=0 returned=0 has_more=false".to_string()]);

    let out = list::run(&repo, None, None, 9999);
    assert_eq!(out.stdout.len(), 1);
    assert_eq!(out.stderr, vec!["total=3 offset=9999 limit=0 returned=0 has_more=false".to_string()]);

    let out = list::run(&repo, None, Some(usize::MAX), usize::MAX);
    assert_eq!(out.stdout.len(), 1);
}

#[test]
fn search_prints_rows_and_count() {
    let repo = catalog();
    let out = search::run(&repo, "agentmail");
    assert!(out.stdout.is_empty());
    assert_eq!(
        out.stderr,
        vec![
            "agentmail\tai\tEmail for agents\tsafe".to_string(),
            String::new(),
            "1 result for \"agentmail\".".to_string(),
        ]
    );
    let out = search::run(&repo, "marketing");
    assert_eq!(out.stderr.len(), 4);
    assert_eq!(out.stderr[3], "2 results for \"marketing\".");
}

#[test]
fn search_with_no_results_prints_no_skills_message() {
    let repo = catalog();
    let out = search::run(&repo, "nonexistent");
    assert_eq!(out.stderr, vec!["No skills matching \"nonexistent\".".to_string()]);
}

#[test]
fn add_steps_follow_aliases_and_report_every_failure() {
    let repo = catalog();
    let ids = vec![
        "ab".to_string(),
        "definitely-not-a-real-skill".to_string(),
        "seo-audit".to_string(),
        "agentmail".to_string(),
    ];
    let steps = add::run(&repo, &ids);
    assert_eq!(steps.len(), 4);
    match &steps[0] {
        Step::Write { id, name, content } => {
            assert_eq!(id, "ab-test-setup");
            assert_eq!(name, "ab-test-setup name");
            assert_eq!(content, "# AB\n");
        }
        Step::Fail(e) => panic!("unexpected {e}"),
    }
    assert!(matches!(&steps[1], Step::Fail(e) if e.starts_with("Skill not found: definitely-not-a-real-skill")));
    assert!(matches!(&steps[2], Step::Fail(e) if e == "Skill content not available for: seo-audit"));
    assert!(matches!(&steps[3], Step::Write { id, .. } if id == "agentmail"));
}

#[test]
fn catalog_page_shows_four_fields() {
    let repo = catalog();
    let page = catalog_for_agent::run(&repo, 2, 1);
    assert_eq!(page.len(), 2);
    assert_eq!(page[0].id, "agentmail");
    assert_eq!(page[0].category, "ai");
    assert_eq!(page[0].description, "Email for agents");
    assert_eq!(page[0].risk, "safe");
    assert_eq!(page[1].id, "seo-audit");
    assert!(catalog_for_agent::run(&repo, 5, 9999).is_empty());
    let mut all = Vec::new();
    let mut offset = 0;
    loop {
        let page = catalog_for_agent::run(&repo, 2, offset);
        if page.is_empty() {
            break;
        }
        all.extend(page.iter().map(|e| e.id.to_string()));
        offset += 2;
    }
    assert_eq!(all, vec!["ab-test-setup", "agentmail", "seo-audit"]);
}

#[test]
fn printed_limits_parse_back() {
    let repo = catalog();
    for n in [1usize, 2, 9, 10, 250, 1000, usize::MAX] {
        let out = list::run(&repo, None, Some(n), 0);
        let limit = out.stderr[0]
            .split("limit=")
            .nth(1)
            .and_then(|s| s.split(' ').next())
            .expect("limit= in metadata");
        assert_eq!(parse_limit(limit), Ok(n));
    }
}
