use awesome_skills_cli::ranking::{match_score_exec, rank_by_score};
use awesome_skills_cli::repository::{closest_skill, format_skill_row, Repository, SkillEntry};

fn skill(id: &str, name: &str, category: &str, description: &str) -> SkillEntry {
    SkillEntry {
        id: id.to_string(),
        path: format!("skills/{id}"),
        category: category.to_string(),
        name: name.to_string(),
        description: description.to_string(),
        risk: "low".to_string(),
        source: "community".to_string(),
        date_added: None,
    }
}

fn pairs(items: &[(&str, &str)]) -> Vec<(String, String)> {
    items
        .iter()
        .map(|(a, b)| (a.to_string(), b.to_string()))
        .collect()
}

fn catalog() -> Repository {
    Repository::new(
        vec![
            skill("ab-test-setup", "ab-test-setup", "marketing", "Set up A/B tests for landing pages."),
            skill("agentmail", "agentmail", "ai", "Email for agents"),
            skill(
                "finishing-a-development-branch",
                "finishing-a-development-branch",
                "workflow",
                "Wrap up a development branch",
            ),
            skill("test-driven-development", "Test Driven Development", "testing", "Write the test first"),
        ],
        pairs(&[("finishing-a-branch", "finishing-a-development-branch")]),
        pairs(&[
            ("ab-test-setup", "# A/B test setup\n"),
            ("finishing-a-development-branch", "# Finishing\n"),
        ]),
    )
}

fn ids(found: &[&SkillEntry]) -> Vec<String> {
    found.iter().map(|s| s.id.clone()).collect()
}

#[test]
fn repository_resolves_aliases() {
    let repo = catalog();
    let skill = repo
        .get_skill("finishing-a-branch")
        .expect("alias resolves");
    assert_eq!(skill.id, "finishing-a-development-branch");
}

#[test]
fn format_skill_row_truncates_long_descriptions() {
    assert_eq!(
        format_skill_row("id", "cat", "short", "low"),
        "id\tcat\tshort\tlow"
    );
    assert_eq!(
        format_skill_row("id", "cat", "abcdefghijklmnopqrstuvwxyzabcdefghijklmnopqrstuvwxyzabcdefghijklmnopqrstuvwxyz", "low"),
        "id\tcat\tabcdefghijklmnopqrstuvwxyzabcdefghijklmnopqrstuvwxyzabcde...\tlow"
    );
}

#[test]
fn format_skill_row_counts_characters_not_bytes() {
    let sixty = "é".repeat(60);
    assert_eq!(format_skill_row("a", "b", &sixty, "c"), format!("a\tb\t{sixty}\tc"));
    let sixty_one = "é".repeat(61);
    assert_eq!(
        format_skill_row("a", "b", &sixty_one, "c"),
        format!("a\tb\t{}...\tc", "é".repeat(57))
    );
}

#[test]
fn get_skill_by_canonical_id_and_unknown_id() {
    let repo = catalog();
    assert_eq!(repo.get_skill("agentmail").map(|s| s.name.as_str()), Some("agentmail"));
    assert!(repo.get_skill("AgentMail").is_none());
    assert!(repo.get_skill("nope").is_none());
}

#[test]
fn resolve_skill_id_maps_only_aliases() {
    let repo = catalog();
    assert_eq!(repo.resolve_skill_id("finishing-a-branch"), "finishing-a-development-branch");
    assert_eq!(repo.resolve_skill_id("agentmail"), "agentmail");
}

#[test]
fn skill_content_follows_aliases() {
    let repo = catalog();
    assert_eq!(repo.get_skill_content("finishing-a-branch"), Some("# Finishing\n"));
    assert_eq!(repo.get_skill_content("ab-test-setup"), Some("# A/B test setup\n"));
    assert_eq!(repo.get_skill_content("agentmail"), None);
}

#[test]
fn later_pairs_replace_earlier_ones() {
    let repo = Repository::new(
        vec![skill("x", "x", "c", "d"), skill("z", "z", "c", "d")],
        pairs(&[("a", "x"), ("b", "y"), ("a", "z")]),
        pairs(&[("x", "old"), ("x", "new")]),
    );
    assert_eq!(repo.resolve_skill_id("a"), "z");
    assert_eq!(repo.get_skill("a").map(|s| s.id.as_str()), Some("z"));
    assert_eq!(repo.get_skill_content("x"), Some("new"));
}

#[test]
fn categories_are_sorted_and_distinct() {
    let mut skills = catalog().all_skills().to_vec();
    skills.push(skill("another", "another", "ai", "More AI"));
    let repo = Repository::new(skills, Vec::new(), Vec::new());
    assert_eq!(repo.categories(), vec!["ai", "marketing", "testing", "workflow"]);
    let empty = Repository::new(Vec::new(), Vec::new(), Vec::new());
    assert!(empty.categories().is_empty());
}

#[test]
fn skills_by_category_keeps_index_order() {
    let mut skills = catalog().all_skills().to_vec();
    skills.push(skill("another", "another", "ai", "More AI"));
    let repo = Repository::new(skills, Vec::new(), Vec::new());
    assert_eq!(ids(&repo.skills_by_category("ai")), vec!["agentmail", "another"]);
    assert!(repo.skills_by_category("AI").is_empty());
}

#[test]
fn search_scores_ids_names_descriptions_and_words() {
    let repo = catalog();
    assert_eq!(
        ids(&repo.search("ab test")),
        vec!["ab-test-setup", "test-driven-development"]
    );
    assert_eq!(
        ids(&repo.search("DEV")),
        vec!["finishing-a-development-branch", "test-driven-development"]
    );
    assert!(repo.search("nonexistent").is_empty());
}

#[test]
fn search_breaks_ties_by_id_then_index() {
    let repo = Repository::new(
        vec![
            skill("zeta-mail", "mail tool", "ai", "x"),
            skill("alpha-mail", "mail tool", "ai", "x"),
            skill("dup", "first", "mail", "x"),
            skill("dup", "second", "mail", "x"),
        ],
        Vec::new(),
        Vec::new(),
    );
    let found = repo.search("mail");
    let names: Vec<&str> = found.iter().map(|s| s.name.as_str()).collect();
    // zeta-mail and alpha-mail: 60 + 70 + 10 = 140; dup: 40 (category) each
    assert_eq!(names, vec!["mail tool", "mail tool", "first", "second"]);
    assert_eq!(found[0].id, "alpha-mail");
    assert_eq!(found[1].id, "zeta-mail");
}

#[test]
fn empty_query_matches_everything_through_contains() {
    let repo = catalog();
    // the empty query occurs in every field: 80 (prefix) + 70 + 20 + 30 = 200 for all
    assert_eq!(
        ids(&repo.search("")),
        vec![
            "ab-test-setup",
            "agentmail",
            "finishing-a-development-branch",
            "test-driven-development"
        ]
    );
}

#[test]
fn match_score_adds_every_rule() {
    let c = |s: &str| s.chars().collect::<Vec<char>>();
    let words = vec![c("abc")];
    assert_eq!(match_score_exec(&c("abc"), &c("abc"), &c("xabcx"), &c("abc"), &c("abc"), &words), 275);
    assert_eq!(match_score_exec(&c("abcd"), &c("abcd"), &c("x"), &c("zabc"), &c("abc"), &words), 80 + 70 + 20 + 10);
    let twice = vec![c("ab"), c("ab")];
    assert_eq!(match_score_exec(&c("xabx"), &c("q"), &c("ab"), &c("q"), &c("zz"), &twice), 30);
}

#[test]
fn rank_by_score_orders_by_score_id_then_position() {
    let c = |s: &str| s.chars().collect::<Vec<char>>();
    let ids = vec![c("b"), c("a"), c("c"), c("a"), c("d")];
    let scores = vec![5u128, 5, 0, 5, 9];
    assert_eq!(rank_by_score(&ids, &scores), vec![4, 1, 3, 0]);
}

#[test]
fn closest_skill_prefers_distance_then_id() {
    let c = |s: &str| s.chars().collect::<Vec<char>>();
    assert_eq!(closest_skill(&vec![c("abd"), c("abe"), c("zzz")], &vec![1, 1, 9]), Some(0));
    assert_eq!(closest_skill(&vec![c("b"), c("a")], &vec![2, 2]), Some(1));
    assert_eq!(closest_skill(&vec![c("b"), c("a")], &vec![6, 7]), None);
    assert_eq!(closest_skill(&vec![c("b"), c("a")], &vec![5, 3]), Some(1));
}

#[test]
fn suggestions_prefer_aliases() {
    let repo = catalog();
    assert_eq!(repo.suggest_skill_id("finishing"), Some("finishing-a-branch"));
    assert_eq!(repo.suggest_skill_id("finishing-a-branch"), Some("finishing-a-development-branch"));
    assert_eq!(repo.suggest_skill_id("finishing-a-branch-now"), Some("finishing-a-branch"));
}

#[test]
fn suggestions_fall_back_to_the_nearest_id() {
    let repo = catalog();
    assert_eq!(repo.suggest_skill_id("agentmial"), Some("agentmail"));
    assert_eq!(repo.suggest_skill_id("AGENTMAIL"), Some("agentmail"));
    assert_eq!(repo.suggest_skill_id("zzzzzzzzzzzzzzzz"), None);
    let near = Repository::new(
        vec![skill("abe", "abe", "c", "d"), skill("abd", "abd", "c", "d")],
        Vec::new(),
        Vec::new(),
    );
    assert_eq!(near.suggest_skill_id("abc"), Some("abd"));
}

#[test]
fn not_found_error_mentions_the_suggestion() {
    let repo = catalog();
    assert_eq!(
        repo.not_found_error("agentmial"),
        "Skill not found: agentmial\nDid you mean: agentmail?"
    );
    assert_eq!(
        repo.not_found_error("finishing"),
        "Skill not found: finishing\nDid you mean: finishing-a-branch?"
    );
    assert_eq!(
        repo.not_found_error("zzzzzzzzzzzzzzzz"),
        "Skill not found: zzzzzzzzzzzzzzzz"
    );
}
