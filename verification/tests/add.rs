use awesome_skills_cli::commands::{add, batch_result, Step};
use awesome_skills_cli::repository::{Repository, SkillEntry};

fn skill(id: &str) -> SkillEntry {
    SkillEntry {
        id: id.to_string(),
        path: format!("skills/{id}"),
        category: "development".to_string(),
        name: id.to_string(),
        description: format!("About {id}"),
        risk: "safe".to_string(),
        source: "community".to_string(),
        date_added: None,
    }
}

fn catalog() -> Repository {
    let ids = ["ab-test-setup", "agentmail", "finishing-a-development-branch"];
    Repository::new(
        ids.iter().map(|id| skill(id)).collect(),
        vec![(
            "finishing-a-branch".to_string(),
            "finishing-a-development-branch".to_string(),
        )],
        ids.iter()
            .map(|id| (id.to_string(), format!("# {id}\n")))
            .collect(),
    )
}

fn written(steps: &[Step]) -> Vec<String> {
    steps
        .iter()
        .filter_map(|s| match s {
            Step::Write { id, .. } => Some(id.clone()),
            Step::Fail(_) => None,
        })
        .collect()
}

fn failures(steps: &[Step]) -> Vec<String> {
    steps
        .iter()
        .filter_map(|s| match s {
            Step::Fail(e) => Some(e.clone()),
            Step::Write { .. } => None,
        })
        .collect()
}

fn ids(v: &[&str]) -> Vec<String> {
    v.iter().map(|s| s.to_string()).collect()
}

#[test]
fn add_multiple_skills_to_same_path() {
    let steps = add::run(&catalog(), &ids(&["ab-test-setup", "agentmail"]));
    assert_eq!(written(&steps), vec!["ab-test-setup", "agentmail"]);
    assert!(batch_result(&failures(&steps)).is_ok());
}

#[test]
fn add_all_unknown_batch_reports_all_errors() {
    let steps = add::run(&catalog(), &ids(&["fake-skill-a", "fake-skill-b"]));
    let err = batch_result(&failures(&steps)).unwrap_err();
    assert!(err.contains("Skill not found: fake-skill-a"));
    assert!(err.contains("Skill not found: fake-skill-b"));
}

#[test]
fn add_continues_processing_after_an_unknown_skill_and_returns_failure() {
    let steps = add::run(
        &catalog(),
        &ids(&["ab-test-setup", "definitely-not-a-real-skill", "finishing-a-branch"]),
    );
    let err = batch_result(&failures(&steps)).unwrap_err();
    assert!(err.contains("Skill not found: definitely-not-a-real-skill"));
    assert_eq!(
        written(&steps),
        vec!["ab-test-setup", "finishing-a-development-branch"]
    );
}

#[test]
fn add_via_alias_resolves_canonical_id() {
    let steps = add::run(&catalog(), &ids(&["finishing-a-branch"]));
    assert_eq!(written(&steps), vec!["finishing-a-development-branch"]);
    match &steps[0] {
        Step::Write { content, .. } => assert_eq!(content, "# finishing-a-development-branch\n"),
        Step::Fail(e) => panic!("unexpected {e}"),
    }
}
