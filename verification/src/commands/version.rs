//! The `version` command, the platform name of release binaries, and the
//! numbers of a version string.
use vstd::prelude::*;

use super::{lines, CommandOutput};
use crate::text::{
    chars_equal, chars_of, extend_str, parse_unsigned, parse_unsigned_exec, split_on,
    split_on_exec, string_of, views,
};

verus! {

/// The line that the `version` command prints.
pub open spec fn version_line(version: Seq<char>) -> Seq<char> {
    "awesome-skills-cli v"@ + version
}

/// Prints the tool's version (given by the caller) on standard error.
pub fn run(version: &str) -> (res: CommandOutput)
    ensures
        lines(res.stdout@) == Seq::<Seq<char>>::empty(),
        lines(res.stderr@) == seq![version_line(version@)],
        res.error is None,
{
    let mut line: Vec<char> = Vec::new();
    extend_str(&mut line, "awesome-skills-cli v");
    extend_str(&mut line, version);
    let mut stderr: Vec<String> = Vec::new();
    stderr.push(string_of(&line));
    let res = CommandOutput { stdout: Vec::new(), stderr, error: None };
    assert(lines(res.stdout@) =~= Seq::<Seq<char>>::empty());
    assert(lines(res.stderr@) =~= seq![version_line(version@)]);
    res
}

/// The suffix of the release binary for a target operating system and
/// architecture (as `std::env::consts::OS` and `ARCH` name them).
pub open spec fn platform_suffix(os: Seq<char>, arch: Seq<char>) -> Seq<char> {
    if os == "linux"@ && arch == "x86_64"@ {
        "linux-x64"@
    } else if os == "linux"@ && arch == "aarch64"@ {
        "linux-arm64"@
    } else if os == "macos"@ && arch == "x86_64"@ {
        "macos-x64"@
    } else if os == "macos"@ && arch == "aarch64"@ {
        "macos-arm64"@
    } else if os == "windows"@ && arch == "x86_64"@ {
        "windows-x64.exe"@
    } else {
        "unknown"@
    }
}

/// The suffix of the release binary built for `os` and `arch`.
pub fn current_platform_suffix(os: &str, arch: &str) -> (res: &'static str)
    ensures
        res@ == platform_suffix(os@, arch@),
{
    let o = chars_of(os);
    let a = chars_of(arch);
    let linux = chars_equal(&o, &chars_of("linux"));
    let macos = chars_equal(&o, &chars_of("macos"));
    let windows = chars_equal(&o, &chars_of("windows"));
    let x64 = chars_equal(&a, &chars_of("x86_64"));
    let arm64 = chars_equal(&a, &chars_of("aarch64"));
    if linux && x64 {
        "linux-x64"
    } else if linux && arm64 {
        "linux-arm64"
    } else if macos && x64 {
        "macos-x64"
    } else if macos && arm64 {
        "macos-arm64"
    } else if windows && x64 {
        "windows-x64.exe"
    } else {
        "unknown"
    }
}

/// The value of one dot-separated part of a version: its number when it is a
/// valid `u32`, else 0.
pub open spec fn part_value(part: Seq<char>) -> nat {
    match parse_unsigned(part, 4294967295nat) {
        Some(v) => v,
        None => 0,
    }
}

/// The numbers of the dot-separated parts of a version string.
pub open spec fn version_numbers(v: Seq<char>) -> Seq<nat> {
    split_on(v, '.').map_values(|p: Seq<char>| part_value(p))
}

/// The numbers of the dot-separated parts of `v`.
pub fn version_numbers_exec(v: &str) -> (res: Vec<u64>)
    ensures
        res@.map_values(|x: u64| x as nat) == version_numbers(v@),
{
    let cs = chars_of(v);
    let parts = split_on_exec(&cs, '.');
    let mut res: Vec<u64> = Vec::new();
    let mut i: usize = 0;
    while i < parts.len()
        invariant
            i <= parts.len(),
            views(parts@) == split_on(v@, '.'),
            res@.map_values(|x: u64| x as nat) == version_numbers(v@).take(i as int),
        decreases parts.len() - i,
    {
        let value: u64 = match parse_unsigned_exec(&parts[i], 4294967295u64) {
            Some(x) => x,
            None => 0,
        };
        assert(views(parts@)[i as int] == parts@[i as int]@);
        let ghost before = res@.map_values(|x: u64| x as nat);
        res.push(value);
        assert(res@.map_values(|x: u64| x as nat) =~= before.push(value as nat));
        assert(version_numbers(v@).take(i + 1) =~= version_numbers(v@).take(i as int).push(
            value as nat,
        ));
        i += 1;
    }
    assert(version_numbers(v@).take(parts.len() as int) =~= version_numbers(v@));
    res
}


/// The two numbers compared at position `k`: the parts of both versions while
/// both have one, else zeros.
pub open spec fn part_pair(l: Seq<nat>, r: Seq<nat>, k: int) -> (nat, nat) {
    if k < l.len() && k < r.len() {
        (l[k], r[k])
    } else {
        (0, 0)
    }
}

/// Compares the first three positions from `k` on: -1, 0 or 1.
pub open spec fn compare_parts(l: Seq<nat>, r: Seq<nat>, k: int) -> int
    decreases 3 - k,
{
    if k >= 3 {
        0
    } else {
        let (x, y) = part_pair(l, r, k);
        if x < y {
            -1
        } else if x > y {
            1
        } else {
            compare_parts(l, r, k + 1)
        }
    }
}

/// How version `a` compares to version `b`: -1 (older), 0 (same) or 1 (newer),
/// by their first three numbers, positions that only one of them has counting as equal.
pub open spec fn version_sign(a: Seq<char>, b: Seq<char>) -> int {
    compare_parts(version_numbers(a), version_numbers(b), 0)
}

/// Compares two versions: -1, 0 or 1.
pub fn version_sign_exec(a: &str, b: &str) -> (res: i8)
    ensures
        res as int == version_sign(a@, b@),
{
    let l = version_numbers_exec(a);
    let r = version_numbers_exec(b);
    let ghost ln = l@.map_values(|x: u64| x as nat);
    let ghost rn = r@.map_values(|x: u64| x as nat);
    let mut k: usize = 0;
    while k < 3
        invariant
            k <= 3,
            ln == l@.map_values(|x: u64| x as nat),
            rn == r@.map_values(|x: u64| x as nat),
            ln == version_numbers(a@),
            rn == version_numbers(b@),
            compare_parts(ln, rn, 0) == compare_parts(ln, rn, k as int),
        decreases 3 - k,
    {
        let (x, y) = if k < l.len() && k < r.len() {
            (l[k], r[k])
        } else {
            (0, 0)
        };
        assert(part_pair(ln, rn, k as int) == (x as nat, y as nat));
        if x < y {
            return -1;
        }
        if x > y {
            return 1;
        }
        k += 1;
    }
    0
}

/// Every version compares equal to itself.
pub proof fn lemma_version_sign_reflexive(a: Seq<char>)
    ensures
        version_sign(a, a) == 0,
{
    let l = version_numbers(a);
    assert(compare_parts(l, l, 3) == 0);
    assert(compare_parts(l, l, 2) == 0);
    assert(compare_parts(l, l, 1) == 0);
}

/// Swapping the versions reverses the comparison.
pub proof fn lemma_version_sign_antisymmetric(a: Seq<char>, b: Seq<char>)
    ensures
        version_sign(a, b) == -version_sign(b, a),
{
    let l = version_numbers(a);
    let r = version_numbers(b);
    assert(compare_parts(l, r, 3) == -compare_parts(r, l, 3));
    assert(compare_parts(l, r, 2) == -compare_parts(r, l, 2));
    assert(compare_parts(l, r, 1) == -compare_parts(r, l, 1));
}

/// For versions with at least three numbers, the comparison is the
/// lexicographic order of the first three.
pub proof fn lemma_version_sign_triplets(a: Seq<char>, b: Seq<char>)
    requires
        version_numbers(a).len() >= 3,
        version_numbers(b).len() >= 3,
    ensures
        ({
            let l = version_numbers(a);
            let r = version_numbers(b);
            version_sign(a, b) == if l[0] != r[0] {
                if l[0] < r[0] {
                    -1int
                } else {
                    1int
                }
            } else if l[1] != r[1] {
                if l[1] < r[1] {
                    -1int
                } else {
                    1int
                }
            } else if l[2] != r[2] {
                if l[2] < r[2] {
                    -1int
                } else {
                    1int
                }
            } else {
                0int
            }
        }),
{
    let l = version_numbers(a);
    let r = version_numbers(b);
    assert(part_pair(l, r, 0) == (l[0], r[0]));
    assert(part_pair(l, r, 1) == (l[1], r[1]));
    assert(part_pair(l, r, 2) == (l[2], r[2]));
    assert(compare_parts(l, r, 3) == 0);
    let c2 = compare_parts(l, r, 2);
    let c1 = compare_parts(l, r, 1);
    assert(c2 == if l[2] < r[2] {
        -1int
    } else if l[2] > r[2] {
        1int
    } else {
        0int
    });
    assert(c1 == if l[1] < r[1] {
        -1int
    } else if l[1] > r[1] {
        1int
    } else {
        c2
    });
}

} // verus!
