use std::cmp::Ordering;

use awesome_skills_cli::commands::update::{
    compare_versions, is_confirmation, plan_update, GitHubAsset, GitHubRelease, UpdatePlan,
};

fn release(tag: &str, assets: &[(&str, &str)]) -> GitHubRelease {
    GitHubRelease {
        tag_name: tag.to_string(),
        assets: assets
            .iter()
            .map(|(name, url)| GitHubAsset {
                name: name.to_string(),
                browser_download_url: url.to_string(),
            })
            .collect(),
    }
}

#[test]
fn update_plan_selects_expected_release_asset() {
    let release = GitHubRelease {
        tag_name: "v9.1.0".to_string(),
        assets: vec![GitHubAsset {
            name: "awesome-skills-cli-linux-x64".to_string(),
            browser_download_url: "https://example.com/linux".to_string(),
        }],
    };

    let plan = plan_update(&release, "9.0.0", "linux-x64").expect("plan computes");
    match plan {
        UpdatePlan::Ready {
            latest_version,
            asset_name,
            download_url,
        } => {
            assert_eq!(latest_version, "9.1.0");
            assert_eq!(asset_name, "awesome-skills-cli-linux-x64");
            assert_eq!(download_url, "https://example.com/linux");
        }
        UpdatePlan::UpToDate => panic!("expected update to be available"),
    }
}

#[test]
fn compare_versions_orders_semver_triplets() {
    assert_eq!(compare_versions("9.0.0", "9.0.0"), Ordering::Equal);
    assert_eq!(compare_versions("9.0.1", "9.0.0"), Ordering::Greater);
    assert_eq!(compare_versions("8.9.9", "9.0.0"), Ordering::Less);
}

#[test]
fn compare_versions_ignores_positions_only_one_side_has() {
    assert_eq!(compare_versions("1.0", "1.0.5"), Ordering::Equal);
    assert_eq!(compare_versions("1.0.5", "1.0"), Ordering::Equal);
    assert_eq!(compare_versions("1.2", "1.10"), Ordering::Less);
}

#[test]
fn compare_versions_reads_invalid_parts_as_zero() {
    assert_eq!(compare_versions("1.x.0", "1.0.0"), Ordering::Equal);
    assert_eq!(compare_versions("1.-1.0", "1.0.0"), Ordering::Equal);
    assert_eq!(compare_versions("+2.0.0", "2.0.0"), Ordering::Equal);
    assert_eq!(compare_versions("4294967296.0.0", "0.0.0"), Ordering::Equal);
    assert_eq!(compare_versions("4294967295.0.0", "0.0.0"), Ordering::Greater);
}

#[test]
fn compare_versions_only_looks_at_three_parts() {
    assert_eq!(compare_versions("1.2.3.4", "1.2.3.9"), Ordering::Equal);
}

#[test]
fn compare_versions_is_antisymmetric_on_examples() {
    let versions = ["1.0.0", "1.2", "0.9.9", "2", "1.2.0.1", "", "v1"];
    for a in versions {
        for b in versions {
            assert_eq!(compare_versions(a, b), compare_versions(b, a).reverse());
        }
        assert_eq!(compare_versions(a, a), Ordering::Equal);
    }
}

#[test]
fn update_plan_is_up_to_date_for_same_or_older_release() {
    let r = release("v9.0.0", &[("awesome-skills-cli-linux-x64", "u")]);
    assert!(matches!(plan_update(&r, "9.0.0", "linux-x64"), Ok(UpdatePlan::UpToDate)));
    let r = release("8.0.0", &[("awesome-skills-cli-linux-x64", "u")]);
    assert!(matches!(plan_update(&r, "9.0.0", "linux-x64"), Ok(UpdatePlan::UpToDate)));
}

#[test]
fn update_plan_strips_every_leading_v() {
    let r = release("vv10.0.0", &[("awesome-skills-cli-macos-arm64", "m")]);
    match plan_update(&r, "9.0.0", "macos-arm64") {
        Ok(UpdatePlan::Ready { latest_version, .. }) => assert_eq!(latest_version, "10.0.0"),
        other => panic!("unexpected plan: {other:?}"),
    }
}

#[test]
fn update_plan_reports_missing_platform_binary() {
    let r = release("v9.1.0", &[("awesome-skills-cli-linux-x64", "u")]);
    let err = plan_update(&r, "9.0.0", "windows-x64.exe").unwrap_err();
    assert_eq!(err, "No binary found for platform: windows-x64.exe");
}

#[test]
fn update_plan_takes_the_first_matching_asset() {
    let r = release(
        "v9.1.0",
        &[
            ("awesome-skills-cli-linux-x64.sha256", "sum"),
            ("awesome-skills-cli-linux-x64", "first"),
            ("awesome-skills-cli-linux-x64", "second"),
        ],
    );
    match plan_update(&r, "9.0.0", "linux-x64") {
        Ok(UpdatePlan::Ready { asset_name, download_url, .. }) => {
            assert_eq!(asset_name, "awesome-skills-cli-linux-x64");
            assert_eq!(download_url, "first");
        }
        other => panic!("unexpected plan: {other:?}"),
    }
}

#[test]
fn confirmation_accepts_y_and_yes_in_any_case() {
    assert!(is_confirmation("y\n"));
    assert!(is_confirmation("  YES \r\n"));
    assert!(is_confirmation("Yes"));
    assert!(!is_confirmation(""));
    assert!(!is_confirmation("no"));
    assert!(!is_confirmation("y e s"));
    assert!(!is_confirmation("yess"));
}
