use xtask::bump_version::{parse_version, version_text, SemanticVersion};
use xtask::manifest::{rewrite_manifest_versions, DependencyVersion, ManifestVersions};

fn v(text: &str) -> SemanticVersion {
    parse_version(text).unwrap()
}

fn dep(name: &str, version: Option<&str>) -> DependencyVersion {
    DependencyVersion { name: name.to_string(), version: version.map(|t| t.to_string()) }
}

fn crates() -> Vec<String> {
    vec!["foo".to_string(), "bar".to_string()]
}

#[test]
fn version_text_follows_semver_display() {
    assert_eq!(version_text(&v("1.2.3")), "1.2.3");
    assert_eq!(version_text(&v("10.0.205-rc.1")), "10.0.205-rc.1");
    assert_eq!(version_text(&v("0.0.0+build.5")), "0.0.0+build.5");
    assert_eq!(version_text(&v("3.1.0-alpha.0+abc")), "3.1.0-alpha.0+abc");
    let max = SemanticVersion {
        major: u64::MAX,
        minor: 0,
        patch: 9,
        pre: String::new(),
        build: String::new(),
    };
    assert_eq!(version_text(&max), format!("{}.0.9", u64::MAX));
}

#[test]
fn package_versions_change_only_where_they_are_current() {
    let m = ManifestVersions {
        workspace_package_version: Some("3.1.0".to_string()),
        package_version: Some("3.0.9".to_string()),
        workspace_dependencies: vec![],
    };
    let r = rewrite_manifest_versions(&m, &v("3.1.0"), &v("3.2.0"), &crates());
    assert_eq!(r.workspace_package_version, Some("3.2.0".to_string()));
    assert_eq!(r.package_version, Some("3.0.9".to_string()));

    let m = ManifestVersions {
        workspace_package_version: None,
        package_version: Some("3.1.0".to_string()),
        workspace_dependencies: vec![],
    };
    let r = rewrite_manifest_versions(&m, &v("3.1.0"), &v("3.1.1"), &crates());
    assert_eq!(r.workspace_package_version, None);
    assert_eq!(r.package_version, Some("3.1.1".to_string()));
}

#[test]
fn workspace_dependency_requirements_follow_the_bump() {
    let m = ManifestVersions {
        workspace_package_version: Some("3.1.0".to_string()),
        package_version: None,
        workspace_dependencies: vec![
            dep("foo", Some("=3.1.0")),
            dep("bar", Some("3.0.0")),
            dep("serde", Some("3.1.0")),
            dep("foo", None),
            dep("bar", Some(">=3.1.0, <3.1.05")),
        ],
    };
    let r = rewrite_manifest_versions(&m, &v("3.1.0"), &v("3.1.1-rc.0"), &crates());
    assert_eq!(
        r.workspace_dependencies,
        vec![
            dep("foo", Some("=3.1.1-rc.0")),
            dep("bar", Some("3.0.0")),
            dep("serde", Some("3.1.0")),
            dep("foo", None),
            dep("bar", Some(">=3.1.1-rc.0, <3.1.1-rc.05")),
        ]
    );
}
