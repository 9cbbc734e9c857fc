//! The decisions of the `update` command: whether a newer release exists,
//! which of its assets to download, and whether the user agreed.
use vstd::prelude::*;

use std::cmp::Ordering;

use super::version::{version_sign, version_sign_exec};
use crate::text::{
    chars_equal, chars_of, extend_str, lowercase_chars, lowercase_of, strip_leading,
    strip_leading_exec, string_of, trim, trim_exec,
};

verus! {

/// One downloadable file of a release.
#[derive(Debug, Clone)]
pub struct GitHubAsset {
    pub name: String,
    pub browser_download_url: String,
}

/// A published release: its tag and its files.
#[derive(Debug, Clone)]
pub struct GitHubRelease {
    pub tag_name: String,
    pub assets: Vec<GitHubAsset>,
}

/// What `update` will do.
#[derive(Debug)]
pub enum UpdatePlan {
    /// The running version is the latest.
    UpToDate,
    /// A newer version exists, with a binary for this platform.
    Ready { latest_version: String, asset_name: String, download_url: String },
}

/// How version `a` compares to version `b`.
pub open spec fn version_order(a: Seq<char>, b: Seq<char>) -> Ordering {
    let s = version_sign(a, b);
    if s < 0 {
        Ordering::Less
    } else if s > 0 {
        Ordering::Greater
    } else {
        Ordering::Equal
    }
}

/// Compares two dotted versions by their first three numbers; a part that is
/// not a number counts as 0, and positions that only one version has are
/// ignored.
pub fn compare_versions(a: &str, b: &str) -> (res: Ordering)
    ensures
        res == version_order(a@, b@),
{
    let s = version_sign_exec(a, b);
    if s < 0 {
        Ordering::Less
    } else if s > 0 {
        Ordering::Greater
    } else {
        Ordering::Equal
    }
}

/// The first asset named `name`.
pub open spec fn first_asset_named(assets: Seq<GitHubAsset>, name: Seq<char>) -> Option<
    GitHubAsset,
>
    decreases assets.len(),
{
    if assets.len() == 0 {
        None
    } else if assets[0].name@ == name {
        Some(assets[0])
    } else {
        first_asset_named(assets.drop_first(), name)
    }
}

/// The name of the release binary for a platform.
pub open spec fn asset_name_for(suffix: Seq<char>) -> Seq<char> {
    "awesome-skills-cli-"@ + suffix
}

/// The version a release tag names: the tag without its leading `v`s.
pub open spec fn tag_version(tag: Seq<char>) -> Seq<char> {
    strip_leading(tag, 'v')
}

fn find_asset<'a>(assets: &'a Vec<GitHubAsset>, name: &Vec<char>) -> (res: Option<&'a GitHubAsset>)
    ensures
        match res {
            Some(a) => first_asset_named(assets@, name@) == Some(*a),
            None => first_asset_named(assets@, name@) is None,
        },
{
    let n = assets.len();
    let mut i: usize = 0;
    assert(assets@.skip(0) =~= assets@);
    while i < n
        invariant
            n == assets@.len(),
            i <= n,
            first_asset_named(assets@, name@) == first_asset_named(assets@.skip(i as int), name@),
        decreases n - i,
    {
        let an = chars_of(assets[i].name.as_str());
        if chars_equal(&an, name) {
            return Some(&assets[i]);
        }
        assert(assets@.skip(i as int).drop_first() =~= assets@.skip(i + 1));
        i += 1;
    }
    None
}

/// The plan for `release` when running `current_version` on platform `suffix`.
pub open spec fn is_update_plan(
    release: GitHubRelease,
    current_version: Seq<char>,
    suffix: Seq<char>,
    res: Result<UpdatePlan, String>,
) -> bool {
    let latest = tag_version(release.tag_name@);
    if version_order(latest, current_version) != Ordering::Greater {
        res matches Ok(UpdatePlan::UpToDate)
    } else {
        match first_asset_named(release.assets@, asset_name_for(suffix)) {
            None => res matches Err(e) && e@ == "No binary found for platform: "@ + suffix,
            Some(asset) => res matches Ok(
                UpdatePlan::Ready { latest_version, asset_name, download_url },
            ) && latest_version@ == latest && asset_name@ == asset.name@ && download_url@
                == asset.browser_download_url@,
        }
    }
}

/// Decides whether to update: up to date unless the release's version is
/// newer; then the release must hold the binary for this platform.
pub fn plan_update(release: &GitHubRelease, current_version: &str, suffix: &str) -> (res: Result<
    UpdatePlan,
    String,
>)
    ensures
        is_update_plan(*release, current_version@, suffix@, res),
{
    let tag = chars_of(release.tag_name.as_str());
    let latest_chars = strip_leading_exec(&tag, 'v');
    let latest = string_of(&latest_chars);
    match compare_versions(latest.as_str(), current_version) {
        Ordering::Greater => {},
        _ => {
            return Ok(UpdatePlan::UpToDate);
        },
    }
    let mut expected: Vec<char> = Vec::new();
    extend_str(&mut expected, "awesome-skills-cli-");
    extend_str(&mut expected, suffix);
    match find_asset(&release.assets, &expected) {
        None => {
            let mut msg: Vec<char> = Vec::new();
            extend_str(&mut msg, "No binary found for platform: ");
            extend_str(&mut msg, suffix);
            Err(string_of(&msg))
        },
        Some(asset) => Ok(
            UpdatePlan::Ready {
                latest_version: latest,
                asset_name: asset.name.clone(),
                download_url: asset.browser_download_url.clone(),
            },
        ),
    }
}

/// The answer agrees to the update: after trimming whitespace and
/// lowercasing it is `y` or `yes`.
pub open spec fn confirms(answer: Seq<char>) -> bool {
    let a = lowercase_of(trim(answer));
    a == "y"@ || a == "yes"@
}

/// Whether the user's answer to the prompt agrees to the update.
pub fn is_confirmation(answer: &str) -> (res: bool)
    ensures
        res == confirms(answer@),
{
    let cs = chars_of(answer);
    let trimmed = trim_exec(&cs);
    let t = string_of(&trimmed);
    let lowered = lowercase_chars(t.as_str());
    chars_equal(&lowered, &chars_of("y")) || chars_equal(&lowered, &chars_of("yes"))
}

} // verus!
