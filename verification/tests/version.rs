use summary_generate::version::{check_version, version_warning, VersionError};

#[test]
fn a_caller_of_the_same_version_is_compatible() {
    assert_eq!(check_version("0.4.52", "0.4.52"), Ok(true));
}

#[test]
fn a_later_patch_of_the_caller_is_compatible() {
    assert_eq!(check_version("0.4.52", "0.4.35"), Ok(true));
    assert_eq!(check_version("1.9.0", "1.2.3"), Ok(true));
}

#[test]
fn an_earlier_or_breaking_caller_is_not_compatible() {
    assert_eq!(check_version("0.4.35", "0.4.52"), Ok(false));
    assert_eq!(check_version("0.5.0", "0.4.52"), Ok(false));
    assert_eq!(check_version("2.0.0", "1.2.3"), Ok(false));
    assert_eq!(check_version("1.2.3-alpha", "1.2.3"), Ok(false));
}

#[test]
fn the_expected_version_is_read_as_a_requirement() {
    assert_eq!(check_version("1.5.0", ">=1.2, <2"), Ok(true));
    assert_eq!(check_version("1.5.0", "*"), Ok(true));
    assert_eq!(check_version("1.5.0", "=1.4.0"), Ok(false));
}

#[test]
fn a_caller_version_that_is_no_version_is_refused() {
    assert!(matches!(check_version("1.0", "1.0.0"), Err(VersionError::Version(_))));
    assert!(matches!(check_version("", "1.0.0"), Err(VersionError::Version(_))));
    assert!(matches!(check_version("latest", "1.0.0"), Err(VersionError::Version(_))));
    match check_version("", "1.0.0") {
        Err(VersionError::Version(reason)) => assert!(!reason.is_empty()),
        _ => panic!("an error was expected"),
    }
}

#[test]
fn an_expected_version_that_is_no_requirement_is_refused() {
    assert!(matches!(check_version("1.0.0", ">>1"), Err(VersionError::Requirement(_))));
    assert!(matches!(check_version("1.0.0", "1.0.0 2.0.0"), Err(VersionError::Requirement(_))));
}

#[test]
fn the_caller_version_is_read_first() {
    assert!(matches!(check_version("x", ">>1"), Err(VersionError::Version(_))));
}

#[test]
fn no_warning_for_a_compatible_caller() {
    assert_eq!(version_warning("summary-generate", "0.4.52", "0.4.52", true), None);
}

#[test]
fn the_warning_names_the_plugin_and_both_versions() {
    assert_eq!(
        version_warning("summary-generate", "0.4.52", "0.4.35", false),
        Some(
            "Warning: The summary-generate plugin was built against version 0.4.52 of mdbook, \
             but we're being called from version 0.4.35"
                .to_string()
        )
    );
}
