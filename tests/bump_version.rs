use xtask::bump_version::{bump_version, parse_version, BumpError, BumpLevel, SemanticVersion};

fn v(text: &str) -> SemanticVersion {
    parse_version(text).unwrap()
}

#[test]
fn test_bump_version_major() {
    assert_eq!(bump_version(&BumpLevel::Major, &v("1.0.0")).unwrap(), v("2.0.0"));
    assert_eq!(bump_version(&BumpLevel::Major, &v("1.1.0")).unwrap(), v("2.0.0"));
    assert_eq!(bump_version(&BumpLevel::Major, &v("1.1.1")).unwrap(), v("2.0.0"));
}

#[test]
fn test_bump_version_minor() {
    assert_eq!(bump_version(&BumpLevel::Minor, &v("1.0.0")).unwrap(), v("1.1.0"));
    assert_eq!(bump_version(&BumpLevel::Minor, &v("1.2.1")).unwrap(), v("1.3.0"));
}

#[test]
fn test_bump_version_patch() {
    assert_eq!(bump_version(&BumpLevel::Patch, &v("1.0.0")).unwrap(), v("1.0.1"));
}

#[test]
fn test_bump_version_prerelease() {
    assert_eq!(
        bump_version(&BumpLevel::PreRelease, &v("1.2.3-alpha.0")).unwrap(),
        v("1.2.3-alpha.1")
    );
    assert_eq!(
        bump_version(&BumpLevel::PreRelease, &v("1.2.3-alpha.1")).unwrap(),
        v("1.2.3-alpha.2")
    );
    assert_eq!(
        bump_version(&BumpLevel::PreRelease, &v("1.2.3-beta.0")).unwrap(),
        v("1.2.3-beta.1")
    );
    assert_eq!(
        bump_version(&BumpLevel::PreRelease, &v("1.2.3-rc.0")).unwrap(),
        v("1.2.3-rc.1")
    );
    assert_eq!(
        bump_version(&BumpLevel::PreRelease, &v("1.2.3-alpha123"))
            .unwrap_err()
            .to_string(),
        "unexpected prerelease format: alpha123",
    );
    assert_eq!(
        bump_version(&BumpLevel::PreRelease, &v("1.2.3-alpha.custom"))
            .unwrap_err()
            .to_string(),
        "unexpected prerelease format: alpha.custom",
    );
}

#[test]
fn test_bump_version_promote_prerelease() {
    assert_eq!(
        bump_version(&BumpLevel::PromotePreRelease, &v("1.2.3-alpha.0")).unwrap(),
        v("1.2.3-beta.0")
    );
    assert_eq!(
        bump_version(&BumpLevel::PromotePreRelease, &v("1.2.3-alpha.1")).unwrap(),
        v("1.2.3-beta.0")
    );
    assert_eq!(
        bump_version(&BumpLevel::PromotePreRelease, &v("1.2.3-beta.0")).unwrap(),
        v("1.2.3-rc.0")
    );
    assert_eq!(
        bump_version(&BumpLevel::PromotePreRelease, &v("1.2.3-rc.0")).unwrap(),
        v("1.2.3")
    );
    assert_eq!(
        bump_version(&BumpLevel::PromotePreRelease, &v("1.2.3-alpha123"))
            .unwrap_err()
            .to_string(),
        "unexpected prerelease format: alpha123",
    );
    assert_eq!(
        bump_version(&BumpLevel::PromotePreRelease, &v("1.2.3-custom.1"))
            .unwrap_err()
            .to_string(),
        "unexpected prerelease format: custom.1, only alpha, beta, and rc are supported"
    );
}

#[test]
fn test_bump_version_patch_or_prerelease() {
    assert_eq!(
        bump_version(&BumpLevel::PatchOrPreRelease, &v("1.2.3-alpha.0")).unwrap(),
        v("1.2.3-alpha.1")
    );
    assert_eq!(
        bump_version(&BumpLevel::PatchOrPreRelease, &v("1.2.3")).unwrap(),
        v("1.2.4")
    );
}

#[test]
fn parse_version_reads_every_field() {
    let parsed = v("4.5.6-rc.7+build.9");
    assert_eq!(parsed.major, 4);
    assert_eq!(parsed.minor, 5);
    assert_eq!(parsed.patch, 6);
    assert_eq!(parsed.pre, "rc.7");
    assert_eq!(parsed.build, "build.9");
    assert!(parse_version("not a version").is_none());
    assert!(parse_version("1.2").is_none());
}

#[test]
fn major_bump_keeps_prerelease_and_build() {
    assert_eq!(
        bump_version(&BumpLevel::Major, &v("1.2.3-beta.4+meta")).unwrap(),
        v("2.0.0-beta.4+meta")
    );
}

#[test]
fn increments_saturate_at_the_maximum() {
    let max = SemanticVersion {
        major: u64::MAX,
        minor: u64::MAX,
        patch: u64::MAX,
        pre: String::new(),
        build: String::new(),
    };
    let major = bump_version(&BumpLevel::Major, &max).unwrap();
    assert_eq!((major.major, major.minor, major.patch), (u64::MAX, 0, 0));
    let minor = bump_version(&BumpLevel::Minor, &max).unwrap();
    assert_eq!((minor.major, minor.minor, minor.patch), (u64::MAX, u64::MAX, 0));
    let patch = bump_version(&BumpLevel::Patch, &max).unwrap();
    assert_eq!(patch, max);
    let pre = SemanticVersion { pre: format!("rc.{}", u64::MAX), ..max.clone() };
    assert_eq!(bump_version(&BumpLevel::PreRelease, &pre).unwrap(), pre);
}

#[test]
fn prerelease_counts_across_digit_boundaries() {
    assert_eq!(
        bump_version(&BumpLevel::PreRelease, &v("0.1.0-alpha.9")).unwrap(),
        v("0.1.0-alpha.10")
    );
    assert_eq!(
        bump_version(&BumpLevel::PreRelease, &v("0.1.0-beta.199")).unwrap(),
        v("0.1.0-beta.200")
    );
}

#[test]
fn prerelease_twice_counts_up_twice() {
    let once = bump_version(&BumpLevel::PreRelease, &v("3.0.0-alpha.0")).unwrap();
    assert_eq!(once, v("3.0.0-alpha.1"));
    let twice = bump_version(&BumpLevel::PreRelease, &once).unwrap();
    assert_eq!(twice, v("3.0.0-alpha.2"));
}

#[test]
fn promotion_chain_ends_in_a_release() {
    let beta = bump_version(&BumpLevel::PromotePreRelease, &v("1.0.0-alpha.5")).unwrap();
    assert_eq!(beta, v("1.0.0-beta.0"));
    let rc = bump_version(&BumpLevel::PromotePreRelease, &beta).unwrap();
    assert_eq!(rc, v("1.0.0-rc.0"));
    let release = bump_version(&BumpLevel::PromotePreRelease, &rc).unwrap();
    assert_eq!(release, v("1.0.0"));
    assert_eq!(
        bump_version(&BumpLevel::PromotePreRelease, &release),
        Err(BumpError::MalformedPrerelease(String::new()))
    );
}

#[test]
fn bumps_of_a_release_stay_releases() {
    let release = v("2.3.4");
    for level in [BumpLevel::Major, BumpLevel::Minor, BumpLevel::Patch, BumpLevel::PatchOrPreRelease] {
        assert!(bump_version(&level, &release).unwrap().pre.is_empty());
    }
    assert!(bump_version(&BumpLevel::PreRelease, &release).is_err());
}

#[test]
fn patch_or_prerelease_matches_patch_and_prerelease() {
    let release = v("1.2.3");
    assert_eq!(
        bump_version(&BumpLevel::PatchOrPreRelease, &release),
        bump_version(&BumpLevel::Patch, &release)
    );
    let pre = v("1.2.3-beta.4");
    assert_eq!(
        bump_version(&BumpLevel::PatchOrPreRelease, &pre),
        bump_version(&BumpLevel::PreRelease, &pre)
    );
    let bad = v("1.2.3-beta");
    assert_eq!(
        bump_version(&BumpLevel::PatchOrPreRelease, &bad),
        Err(BumpError::MalformedPrerelease("beta".to_string()))
    );
}

#[test]
fn malformed_prerelease_is_reported_verbatim() {
    let bad = v("1.2.3-alpha123");
    let expected = Err(BumpError::MalformedPrerelease("alpha123".to_string()));
    assert_eq!(bump_version(&BumpLevel::PreRelease, &bad), expected);
    assert_eq!(bump_version(&BumpLevel::PromotePreRelease, &bad), expected);
    assert_eq!(
        bump_version(&BumpLevel::PromotePreRelease, &v("1.2.3-alpha.custom")),
        Err(BumpError::MalformedPrerelease("alpha.custom".to_string()))
    );
    assert_eq!(
        bump_version(&BumpLevel::PromotePreRelease, &v("1.2.3-custom.1")),
        Err(BumpError::UnsupportedStage("custom.1".to_string()))
    );
    assert!(bump_version(&BumpLevel::PreRelease, &v("1.2.3")).is_err());
}
