//! Mapping solc versions to language versions.
use edr_eip712::collector::CollectError;
use edr_eip712::version::{
    has_metadata, strip_metadata, to_language_version, FromSemverError, LanguageVersion,
};
use semver::Version;

const LATEST: LanguageVersion = LanguageVersion { major: 0, minor: 8, patch: 30 };

/// What grammars for all releases from 0.8.0 to the latest offer.
fn offered(version: &Version) -> Result<LanguageVersion, FromSemverError> {
    if !version.pre.is_empty() || !version.build.is_empty() {
        Err(FromSemverError::Other { message: "metadata".to_string() })
    } else if version.major == 0 && version.minor == 8 && version.patch <= LATEST.patch {
        Ok(LanguageVersion { major: 0, minor: 8, patch: version.patch })
    } else {
        Err(FromSemverError::UnsupportedVersion { message: "unsupported".to_string() })
    }
}

fn language_version(version: &Version) -> Result<LanguageVersion, FromSemverError> {
    to_language_version(version, offered(&strip_metadata(version)), LATEST)
}

#[test]
fn exact_supported_version() {
    assert_eq!(
        language_version(&Version::new(0, 8, 24)).unwrap(),
        LanguageVersion { major: 0, minor: 8, patch: 24 }
    );
}

#[test]
fn strips_build_and_prerelease_metadata() {
    let version = Version::parse("0.8.24+commit.abcdef").unwrap();
    assert_eq!(
        language_version(&version).unwrap(),
        LanguageVersion { major: 0, minor: 8, patch: 24 }
    );
    let version = Version::parse("0.8.24-nightly.2024").unwrap();
    assert_eq!(strip_metadata(&version), Version::new(0, 8, 24));
    assert_eq!(
        language_version(&version).unwrap(),
        LanguageVersion { major: 0, minor: 8, patch: 24 }
    );
}

#[test]
fn clamps_newer_versions_to_latest() {
    assert_eq!(language_version(&Version::new(0, 9, 0)).unwrap(), LATEST);
    assert_eq!(language_version(&Version::new(1, 0, 0)).unwrap(), LATEST);
    assert_eq!(language_version(&Version::new(0, 8, 31)).unwrap(), LATEST);
    let nightly = Version::parse("0.8.31-nightly").unwrap();
    assert_eq!(language_version(&nightly).unwrap(), LATEST);
}

#[test]
fn rejects_versions_older_than_0_8_0() {
    assert!(matches!(
        language_version(&Version::new(0, 7, 6)),
        Err(FromSemverError::UnsupportedVersion { .. })
    ));
}

#[test]
fn unsupported_solc_version_is_an_error() {
    let error = CollectError::from(language_version(&Version::new(0, 7, 6)).unwrap_err());
    assert!(matches!(error, CollectError::InvalidSolcVersion { .. }));
    assert_eq!(error.message(), "unsupported");
}

#[test]
fn other_errors_pass_through() {
    let found = Err(FromSemverError::Other { message: "why".to_string() });
    let error = to_language_version(&Version::new(0, 9, 0), found, LATEST).unwrap_err();
    assert!(matches!(&error, FromSemverError::Other { .. }));
    assert_eq!(error.message(), "why");
}

#[test]
fn metadata_decides_where_the_latest_version_is_missing() {
    let unsupported =
        || Err(FromSemverError::UnsupportedVersion { message: "unsupported".to_string() });
    let with = |text: &str| {
        to_language_version(&Version::parse(text).unwrap(), unsupported(), LATEST).is_ok()
    };
    assert!(!with("0.8.30"));
    assert!(!with("0.8.30-nightly"));
    assert!(!with("0.8.30-nightly+build"));
    assert!(with("0.8.30+commit.abcdef"));
    assert!(with("0.8.30+0"));
    assert!(!with("0.8.29+commit.abcdef"));
}

#[test]
fn metadata_is_told_from_numbers() {
    assert!(!has_metadata(&Version::new(0, 8, 24)));
    assert!(has_metadata(&Version::parse("0.8.24-nightly").unwrap()));
    let version = Version::parse("0.8.24+commit.abcdef").unwrap();
    assert!(has_metadata(&version));
    assert!(!has_metadata(&strip_metadata(&version)));
}

#[test]
fn later_versions_have_no_earlier_language_version() {
    let texts = ["0.7.6", "0.8.0", "0.8.24-nightly", "0.8.24", "0.8.30", "0.8.31", "0.9.0"];
    let mut last = None;
    for text in texts {
        let version = Version::parse(text).unwrap();
        match language_version(&version) {
            Ok(found) => {
                let numbers = (found.major, found.minor, found.patch);
                assert!(last.map(|earlier| earlier <= numbers).unwrap_or(true));
                last = Some(numbers);
            }
            Err(_) => assert_eq!(text, "0.7.6"),
        }
    }
    assert_eq!(last, Some((0, 8, 30)));
}
