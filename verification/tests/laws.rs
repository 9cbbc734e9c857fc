use awesome_skills_cli::commands::setup::{next, SetupAction};
use awesome_skills_cli::commands::{add, catalog_for_agent, Step};
use awesome_skills_cli::repository::{Repository, SkillEntry};
use awesome_skills_cli::text::{char_is_whitespace, lowercase_chars};

fn skill(id: &str, category: &str) -> SkillEntry {
    SkillEntry {
        id: id.to_string(),
        path: format!("skills/{id}"),
        category: category.to_string(),
        name: id.to_uppercase(),
        description: format!("About \"{id}\""),
        risk: "safe".to_string(),
        source: "community".to_string(),
        date_added: None,
    }
}

fn catalog() -> Repository {
    Repository::new(
        vec![
            skill("zeta", "writing"),
            skill("alpha", "testing"),
            skill("mid", "writing"),
            skill("beta", "ai"),
            skill("alpha", "ai"),
        ],
        Vec::new(),
        Vec::new(),
    )
}

fn write(id: &str) -> Step {
    Step::Write {
        id: id.to_string(),
        name: id.to_string(),
        content: format!("# {id}\n"),
    }
}

#[test]
fn add_finish_succeeds_when_every_write_succeeds() {
    let steps = vec![write("a"), write("b")];
    assert_eq!(add::finish(&steps, &vec![None, None]), Ok(()));
    assert_eq!(add::finish(&Vec::new(), &Vec::new()), Ok(()));
}

#[test]
fn add_finish_reports_every_failure_in_input_order() {
    let steps = vec![
        write("a"),
        Step::Fail("Skill not found: nope".to_string()),
        write("b"),
        write("c"),
    ];
    let outcomes = vec![None, None, Some("failed to create out/b".to_string()), None];
    assert_eq!(
        add::finish(&steps, &outcomes),
        Err("Skill not found: nope\nfailed to create out/b".to_string())
    );
}

#[test]
fn setup_next_writes_in_order_then_succeeds() {
    let steps = vec![write("a"), write("b")];
    let mut outcomes: Vec<Option<String>> = Vec::new();
    let mut performed = Vec::new();
    loop {
        match next(&steps, &outcomes) {
            SetupAction::Write(k) => {
                performed.push(k);
                outcomes.push(None);
            }
            SetupAction::Done(result) => {
                assert_eq!(result, Ok(()));
                break;
            }
        }
    }
    assert_eq!(performed, vec![0, 1]);
}

#[test]
fn setup_next_stops_at_the_first_failed_write() {
    let steps = vec![write("a"), write("b"), write("c")];
    assert!(matches!(next(&steps, &vec![None]), SetupAction::Write(1)));
    match next(&steps, &vec![None, Some("disk full".to_string())]) {
        SetupAction::Done(result) => assert_eq!(result, Err("disk full".to_string())),
        SetupAction::Write(k) => panic!("unexpected write {k}"),
    }
}

#[test]
fn setup_next_stops_at_a_failing_step() {
    let steps = vec![write("a"), Step::Fail("no markdown".to_string()), write("c")];
    match next(&steps, &vec![None]) {
        SetupAction::Done(result) => assert_eq!(result, Err("no markdown".to_string())),
        SetupAction::Write(k) => panic!("unexpected write {k}"),
    }
}

#[test]
fn categories_partition_the_skills() {
    let repo = catalog();
    let categories = repo.categories();
    assert_eq!(categories, vec!["ai", "testing", "writing"]);
    let total: usize = categories
        .iter()
        .map(|c| repo.skills_by_category(c).len())
        .sum();
    assert_eq!(total, repo.all_skills().len());
    assert!(repo.skills_by_category("nonexistent").is_empty());
}

#[test]
fn empty_query_lists_every_skill_by_id_then_index() {
    let repo = catalog();
    let found: Vec<(String, String)> = repo
        .search("")
        .iter()
        .map(|s| (s.id.clone(), s.category.clone()))
        .collect();
    let expected: Vec<(String, String)> = [
        ("alpha", "testing"),
        ("alpha", "ai"),
        ("beta", "ai"),
        ("mid", "writing"),
        ("zeta", "writing"),
    ]
    .iter()
    .map(|(a, b)| (a.to_string(), b.to_string()))
    .collect();
    assert_eq!(found, expected);
}

#[test]
fn lowercasing_keeps_empty_and_non_empty_strings() {
    assert!(lowercase_chars("").is_empty());
    assert_eq!(lowercase_chars("ABC"), vec!['a', 'b', 'c']);
    assert_eq!(lowercase_chars("İ").len(), 2);
}

#[test]
fn whitespace_test_agrees_with_char_is_whitespace() {
    for code in 0u32..=0x10FFFF {
        if let Some(c) = char::from_u32(code) {
            assert_eq!(char_is_whitespace(c), c.is_whitespace(), "U+{code:04X}");
        }
    }
}

#[test]
fn catalog_output_is_a_json_array_with_four_fields() {
    let repo = catalog();
    let out = catalog_for_agent::output(&repo, 2, 1);
    assert_eq!(out.error, None);
    assert_eq!(out.stdout.len(), 1);
    let parsed: serde_json::Value = serde_json::from_str(&out.stdout[0]).expect("valid JSON");
    let entries = parsed.as_array().expect("array");
    assert_eq!(entries.len(), 2);
    let first = entries[0].as_object().expect("object");
    let keys: Vec<&str> = first.keys().map(|k| k.as_str()).collect();
    assert_eq!(keys, vec!["category", "description", "id", "risk"]);
    assert_eq!(first["id"], "alpha");
    assert_eq!(first["description"], "About \"alpha\"");
    assert_eq!(entries[1]["id"], "mid");
    assert!(out.stdout[0].starts_with("[\n  {\n    \"category\": \"testing\","));
    assert_eq!(
        out.stderr,
        vec!["total=5 offset=1 limit=2 returned=2 has_more=true".to_string()]
    );
}

#[test]
fn catalog_output_of_an_empty_page_is_an_empty_array() {
    let repo = catalog();
    let out = catalog_for_agent::output(&repo, 3, 99);
    assert_eq!(out.stdout, vec!["[]".to_string()]);
    assert_eq!(
        out.stderr,
        vec!["total=5 offset=99 limit=3 returned=0 has_more=false".to_string()]
    );
}

#[test]
fn catalog_page_output_reports_an_encoding_failure() {
    let out = catalog_for_agent::page_output(None, "summary".to_string());
    assert!(out.stdout.is_empty());
    assert!(out.stderr.is_empty());
    assert_eq!(out.error, Some("failed to serialize catalog output".to_string()));
    let ok = catalog_for_agent::page_output(Some("[]".to_string()), "summary".to_string());
    assert_eq!(ok.stdout, vec!["[]".to_string()]);
    assert_eq!(ok.stderr, vec!["summary".to_string()]);
    assert_eq!(ok.error, None);
}
