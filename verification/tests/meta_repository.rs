use awesome_skills_cli::commands::setup;
use awesome_skills_cli::commands::Step;
use awesome_skills_cli::meta_repository::MetaRepository;

fn meta() -> MetaRepository {
    MetaRepository::new(vec![
        (
            "awesome-skills-cli".to_string(),
            "---\nname: awesome-skills-cli\n---\n".to_string(),
        ),
        (
            "recommend-awesome-skills".to_string(),
            "---\nname: recommend-awesome-skills\n---\n".to_string(),
        ),
    ])
}

#[test]
fn meta_repository_embeds_expected_skills() {
    let repo = meta();
    let ids = repo
        .all_skills()
        .iter()
        .map(|skill| skill.id)
        .collect::<Vec<_>>();

    assert!(ids.contains(&"awesome-skills-cli"));
    assert!(ids.contains(&"recommend-awesome-skills"));
    assert_eq!(
        repo.get_skill("awesome-skills-cli").map(|skill| skill.name),
        Some("awesome-skills-cli")
    );
    assert!(repo.get_skill_content("awesome-skills-cli").is_some());
    assert!(repo.get_skill_content("recommend-awesome-skills").is_some());
}

#[test]
fn meta_skill_markdown_is_looked_up_by_exact_id() {
    let repo = meta();
    let cli = repo.get_skill_content("awesome-skills-cli").unwrap();
    assert_eq!(cli, "---\nname: awesome-skills-cli\n---\n");
    let rec = repo.get_skill_content("recommend-awesome-skills").unwrap();
    assert!(rec.starts_with("---\nname: recommend-awesome-skills\n"));
    assert!(repo.get_skill_content("ab-test-setup").is_none());
    assert!(repo.get_skill("AWESOME-SKILLS-CLI").is_none());
}

#[test]
fn setup_without_ids_installs_every_meta_skill() {
    let repo = meta();
    let steps = setup::run(&repo, &Vec::new()).expect("setup plan");
    let ids: Vec<&str> = steps
        .iter()
        .map(|s| match s {
            Step::Write { id, .. } => id.as_str(),
            Step::Fail(e) => panic!("unexpected failure {e}"),
        })
        .collect();
    assert_eq!(ids, vec!["awesome-skills-cli", "recommend-awesome-skills"]);
    match &steps[1] {
        Step::Write { name, content, .. } => {
            assert_eq!(name, "recommend-awesome-skills");
            assert_eq!(Some(content.as_str()), repo.get_skill_content("recommend-awesome-skills"));
        }
        Step::Fail(_) => unreachable!(),
    }
}

#[test]
fn setup_with_skill_id_only_installs_that_meta_skill() {
    let repo = meta();
    let steps = setup::run(&repo, &vec!["awesome-skills-cli".to_string()]).expect("setup plan");
    assert_eq!(steps.len(), 1);
    assert!(matches!(&steps[0], Step::Write { id, .. } if id == "awesome-skills-cli"));
}

#[test]
fn setup_reports_every_unknown_meta_skill() {
    let repo = meta();
    let ids = vec![
        "not-a-real-meta-skill".to_string(),
        "awesome-skills-cli".to_string(),
        "other".to_string(),
    ];
    let err = setup::run(&repo, &ids).unwrap_err();
    assert_eq!(
        err,
        "Meta skill not found: not-a-real-meta-skill\nMeta skill not found: other"
    );
}

#[test]
fn setup_stops_at_a_meta_skill_without_markdown() {
    let repo = MetaRepository::new(vec![(
        "recommend-awesome-skills".to_string(),
        "# r".to_string(),
    )]);
    let steps = setup::run(&repo, &Vec::new()).expect("setup plan");
    assert_eq!(steps.len(), 1);
    assert!(matches!(&steps[0], Step::Fail(e) if e == "meta skill content not available for: awesome-skills-cli"));
    let repo = MetaRepository::new(vec![("awesome-skills-cli".to_string(), "# c".to_string())]);
    let steps = setup::run(&repo, &Vec::new()).expect("setup plan");
    assert_eq!(steps.len(), 2);
    assert!(matches!(&steps[0], Step::Write { content, .. } if content == "# c"));
    assert!(matches!(&steps[1], Step::Fail(e) if e == "meta skill content not available for: recommend-awesome-skills"));
}

#[test]
fn setup_unknown_meta_skill_returns_failure() {
    let repo = meta();
    assert!(setup::run(&repo, &vec!["not-a-real-meta-skill".to_string()]).is_err());
}
