use thirdpass_ansible::semantic::{SemanticVersion, VersionRequirement};
use thirdpass_ansible::version::{
    normalize_requirement_comparator, normalize_version, normalize_version_requirement,
    parse_version, parse_version_requirement, parse_versions, select_latest_matching_version,
    select_latest_version, VersionError,
};

fn semantic(text: &str) -> SemanticVersion {
    SemanticVersion::parse(text).expect("a semantic version")
}

fn owned(versions: &[&str]) -> Vec<String> {
    versions.iter().map(|version| version.to_string()).collect()
}

#[test]
fn normalize_version_adds_missing_components() -> Result<(), VersionError> {
    assert_eq!(normalize_version("0.1")?, "0.1.0".to_string());
    assert_eq!(
        normalize_version("0.1-alpha-123")?,
        "0.1.0-alpha-123".to_string()
    );
    assert_eq!(normalize_version("1")?, "1.0.0".to_string());
    Ok(())
}

#[test]
fn version_requirements_normalize_ansible_syntax() -> Result<(), VersionError> {
    let requirement = parse_version_requirement(">= 1.0, ==2.0.0")?;

    assert!(requirement.matches(&semantic("2.0.0")));
    assert!(!requirement.matches(&semantic("1.5.0")));
    Ok(())
}

#[test]
fn version_requirements_parse_real_galaxy_shapes() -> Result<(), VersionError> {
    assert!(parse_version_requirement("*")?.matches(&semantic("1.0.0")));
    assert!(parse_version_requirement(">=2.7.0")?.matches(&semantic("6.0.3")));
    assert!(parse_version_requirement("==3.1")?.matches(&semantic("3.1.0")));
    assert!(parse_version_requirement(">= 1.0, < 2.0")?.matches(&semantic("1.9.0")));
    Ok(())
}

#[test]
fn latest_matching_version_uses_full_candidate_set() -> Result<(), VersionError> {
    let versions = vec![
        "2.0.0".to_string(),
        "1.5.0".to_string(),
        "1.2.0".to_string(),
    ];
    let requirement = parse_version_requirement("<2.0.0")?;

    assert_eq!(
        select_latest_matching_version(&versions, &requirement)?,
        "1.5.0"
    );
    Ok(())
}

#[test]
fn latest_matching_version_handles_prereleases() -> Result<(), VersionError> {
    let versions = vec![
        "1.0.0-alpha.1".to_string(),
        "1.0.0-beta.1".to_string(),
        "1.0.0".to_string(),
    ];
    let requirement = parse_version_requirement(">=1.0.0-alpha.1,<1.0.0")?;

    assert_eq!(
        select_latest_matching_version(&versions, &requirement)?,
        "1.0.0-beta.1"
    );
    Ok(())
}

#[test]
fn latest_version_skips_non_semver_values() -> Result<(), VersionError> {
    let versions = vec!["not-semver".to_string(), "1.0.0".to_string()];

    assert_eq!(select_latest_version(&versions)?, "1.0.0");
    Ok(())
}

#[test]
fn normalizing_keeps_what_is_complete() -> Result<(), VersionError> {
    assert_eq!(normalize_version("1.2.3")?, "1.2.3");
    assert_eq!(normalize_version("1.2.3.4")?, "1.2.3.4");
    assert_eq!(normalize_version("1.2.3-rc.1")?, "1.2.3-rc.1");
    assert_eq!(normalize_version("")?, ".0.0");
    assert_eq!(normalize_version("-x.y")?, ".0.0-x.y");
    assert_eq!(normalize_version("1--2")?, "1.0.0--2");
    assert_eq!(normalize_version("1-")?, "1.0.0-");
    Ok(())
}

#[test]
fn normalizing_twice_changes_nothing_more() -> Result<(), VersionError> {
    for version in ["1", "0.1", "0.1-alpha-123", "1.2.3", "", "a.b-c", "1.2.3.4"] {
        let once = normalize_version(version)?;
        assert_eq!(normalize_version(&once)?, once);
    }
    Ok(())
}

#[test]
fn comparators_are_written_as_semver_writes_them() -> Result<(), VersionError> {
    assert_eq!(normalize_requirement_comparator(">=1")?, ">=1.0.0");
    assert_eq!(normalize_requirement_comparator("<= 1.2")?, "<=1.2.0");
    assert_eq!(normalize_requirement_comparator("==2")?, "=2.0.0");
    assert_eq!(normalize_requirement_comparator("= 2")?, "=2.0.0");
    assert_eq!(normalize_requirement_comparator("> 2.1")?, ">2.1.0");
    assert_eq!(normalize_requirement_comparator("<2.1-rc")?, "<2.1.0-rc");
    assert_eq!(normalize_requirement_comparator("~1.2.3")?, "~1.2.3");
    assert_eq!(normalize_requirement_comparator("^1")?, "^1.0.0");
    assert_eq!(normalize_requirement_comparator("1.4")?, "1.4.0");
    assert_eq!(normalize_requirement_comparator("")?, "*");
    assert_eq!(normalize_requirement_comparator("*")?, "*");
    assert_eq!(normalize_requirement_comparator(">=  *")?, "*");
    assert_eq!(normalize_requirement_comparator(">=")?, ">=.0.0");
    assert_eq!(normalize_requirement_comparator("===1")?, "==1.0.0");
    assert_eq!(normalize_requirement_comparator("> =1")?, ">=1.0.0");
    assert_eq!(normalize_requirement_comparator("!=1")?, "!=1.0.0");
    Ok(())
}

#[test]
fn requirements_are_split_trimmed_and_joined() -> Result<(), VersionError> {
    assert_eq!(
        normalize_version_requirement("  >=1 ,\t< 2.0\n")?,
        ">=1.0.0, <2.0.0"
    );
    assert_eq!(
        normalize_version_requirement("\u{2003}==1\u{a0}")?,
        "=1.0.0"
    );
    assert_eq!(normalize_version_requirement("   ")?, "*");
    assert_eq!(normalize_version_requirement(" * ")?, "*");
    assert_eq!(normalize_version_requirement("")?, "*");
    assert_eq!(normalize_version_requirement("1,,2")?, "1.0.0, *, 2.0.0");
    assert_eq!(normalize_version_requirement(",")?, "*, *");
    Ok(())
}

#[test]
fn every_white_space_character_is_trimmed() -> Result<(), VersionError> {
    for c in '\0'..=char::MAX {
        let requirement = format!("{}1{}", c, c);
        if c.is_whitespace() {
            assert_eq!(normalize_version_requirement(&requirement)?, "1.0.0");
        } else {
            assert_ne!(normalize_version_requirement(&requirement)?, "1.0.0");
        }
    }
    Ok(())
}

#[test]
fn unreadable_requirements_are_reported() {
    let error = parse_version_requirement(">=1.0,,<2").expect_err("a wildcard among others");
    assert_eq!(
        error.message(),
        "Failed to parse collection dependency requirement: >=1.0.0, *, <2.0.0"
    );
    match error {
        VersionError::InvalidRequirement { normalized, cause } => {
            assert_eq!(normalized, ">=1.0.0, *, <2.0.0");
            assert_eq!(
                cause.to_string(),
                semver::VersionReq::parse(">=1.0.0, *, <2.0.0")
                    .expect_err("a wildcard among others")
                    .to_string()
            );
        }
        other => panic!("unexpected error {:?}", other),
    }
    assert!(parse_version_requirement("!=1.0").is_err());
}

#[test]
fn unreadable_versions_are_reported() {
    let error = parse_version("not-semver").expect_err("no semantic version");
    assert_eq!(
        error.message(),
        "Failed to parse normalized version: not.0.0-semver"
    );
    match error {
        VersionError::InvalidVersion { normalized, cause } => {
            assert_eq!(normalized, "not.0.0-semver");
            assert_eq!(
                cause.to_string(),
                semver::Version::parse("not.0.0-semver")
                    .expect_err("no semantic version")
                    .to_string()
            );
        }
        other => panic!("unexpected error {:?}", other),
    }
    assert!(parse_version("1.2.3.4").is_err());
    assert!(parse_version("01.2.3").is_err());
}

#[test]
fn only_compatible_versions_are_parsed() {
    let versions = owned(&["2", "x", "1.0.0", "1.2.3.4", "0.1-a"]);
    let parsed = parse_versions(&versions);
    let kept: Vec<&str> = parsed
        .iter()
        .map(|(_version, original)| original.as_str())
        .collect();
    assert_eq!(kept, vec!["2", "1.0.0", "0.1-a"]);
    assert!(parsed[1].0.is_older_than(&parsed[0].0));
    assert!(parsed[2].0.is_older_than(&parsed[1].0));
    assert!(!parsed[0].0.is_older_than(&parsed[2].0));
}

#[test]
fn the_newest_version_is_chosen_wherever_it_is_listed() -> Result<(), VersionError> {
    let lists: [&[&str]; 3] = [
        &["1.19.0", "1.5.0", "1.2"],
        &["1.5.0", "1.19.0", "1.2"],
        &["1.2", "1.5.0", "1.19.0"],
    ];
    for list in lists {
        assert_eq!(select_latest_version(&owned(list))?, "1.19.0");
    }
    assert_eq!(
        select_latest_version(&owned(&["1.0.0-rc.2", "1.0.0-rc.11", "1.0.0-rc.1"]))?,
        "1.0.0-rc.11"
    );
    assert_eq!(
        select_latest_version(&owned(&["1.0.0+b", "1.0.0+a", "1.0.0"]))?,
        "1.0.0+b"
    );
    Ok(())
}

#[test]
fn of_equally_new_versions_the_last_is_chosen() -> Result<(), VersionError> {
    assert_eq!(
        select_latest_version(&owned(&["1.0", "1.0.0", "0.9"]))?,
        "1.0.0"
    );
    assert_eq!(
        select_latest_version(&owned(&["1.0.0", "1", "0.9"]))?,
        "1"
    );
    let requirement = parse_version_requirement("<2")?;
    assert_eq!(
        select_latest_matching_version(&owned(&["2.0", "1.0.0", "1.0", "0.9"]), &requirement)?,
        "1.0"
    );
    Ok(())
}

#[test]
fn nothing_to_choose_from_is_reported() -> Result<(), VersionError> {
    let error = select_latest_version(&owned(&["x", "y-1"])).expect_err("nothing compatible");
    assert!(matches!(error, VersionError::NoLatestVersion));
    assert_eq!(error.message(), "Failed to find latest version.");

    let requirement = parse_version_requirement(">=3")?;
    let error = select_latest_matching_version(&owned(&["1.0.0", "2.0.0"]), &requirement)
        .expect_err("nothing matching");
    assert!(matches!(error, VersionError::NoMatchingVersion));
    assert_eq!(error.message(), "Failed to find matching version.");
    Ok(())
}

#[test]
fn incompatible_versions_change_nothing() -> Result<(), VersionError> {
    let requirement = parse_version_requirement("<2")?;
    let with = owned(&["1.0.0", "zzz", "1.5.0", "9.9.9.9"]);
    let without = owned(&["1.0.0", "1.5.0"]);
    assert_eq!(
        select_latest_version(&with)?,
        select_latest_version(&without)?
    );
    assert_eq!(
        select_latest_matching_version(&with, &requirement)?,
        select_latest_matching_version(&without, &requirement)?
    );
    Ok(())
}

#[test]
fn any_version_does_not_include_prereleases() -> Result<(), VersionError> {
    let requirement = parse_version_requirement("*")?;
    assert_eq!(
        select_latest_matching_version(&owned(&["1.0.0", "2.0.0-rc.1"]), &requirement)?,
        "1.0.0"
    );
    Ok(())
}

#[test]
fn requirements_are_read_in_semver_syntax() {
    let requirement = VersionRequirement::parse("~1.2.3").expect("a requirement");
    assert!(requirement.matches(&semantic("1.2.9")));
    assert!(!requirement.matches(&semantic("1.3.0")));
    assert!(VersionRequirement::parse("==1.2.3").is_err());
}
