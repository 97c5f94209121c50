//! The Solidity language version that a solc version stands for.
use semver::{BuildMetadata, Prerelease, Version};
use vstd::prelude::*;
use vstd::string::StrSliceExecFns;

verus! {

/// `semver::Version`: three numbers, a pre-release tag and build metadata.
#[verifier::external_type_specification]
pub struct ExVersion(Version);

/// `semver::Prerelease`.
#[verifier::external_type_specification]
#[verifier::external_body]
pub struct ExPrerelease(Prerelease);

/// `semver::BuildMetadata`.
#[verifier::external_type_specification]
#[verifier::external_body]
pub struct ExBuildMetadata(BuildMetadata);

/// What `Prerelease::as_str` returns: the text of a pre-release tag.
pub uninterp spec fn prerelease_text(pre: Prerelease) -> Seq<char>;

/// What `BuildMetadata::as_str` returns: the text of build metadata.
pub uninterp spec fn build_text(build: BuildMetadata) -> Seq<char>;

/// `Prerelease::as_str`: the text of a pre-release tag, empty if there is none.
pub assume_specification[ Prerelease::as_str ](pre: &Prerelease) -> (r: &str)
    ensures
        r@ == prerelease_text(*pre),
;

/// `BuildMetadata::as_str`: the text of build metadata, empty if there is none.
pub assume_specification[ BuildMetadata::as_str ](build: &BuildMetadata) -> (r: &str)
    ensures
        r@ == build_text(*build),
;

/// Whether `v` is `major.minor.patch` with nothing behind it.
pub open spec fn is_release(v: Version, major: u64, minor: u64, patch: u64) -> bool {
    &&& v.major == major
    &&& v.minor == minor
    &&& v.patch == patch
    &&& prerelease_text(v.pre).len() == 0
    &&& build_text(v.build).len() == 0
}

/// Whether `v` comes behind the release `major.minor.patch`: by its numbers, or,
/// where these are the same, by build metadata. A pre-release comes in front of
/// its release.
pub open spec fn is_behind(v: Version, major: u64, minor: u64, patch: u64) -> bool {
    if v.major != major {
        v.major > major
    } else if v.minor != minor {
        v.minor > minor
    } else if v.patch != patch {
        v.patch > patch
    } else {
        prerelease_text(v.pre).len() == 0 && build_text(v.build).len() > 0
    }
}

/// `Version::new`: the release with these numbers.
pub assume_specification[ Version::new ](major: u64, minor: u64, patch: u64) -> (r: Version)
    ensures
        r.major == major,
        r.minor == minor,
        r.patch == patch,
        prerelease_text(r.pre).len() == 0,
        build_text(r.build).len() == 0,
;

/// `>` of `semver::Version`, of which is stated how a version compares with a
/// release.
#[verifier::external_body]
fn is_greater(a: &Version, b: &Version) -> (r: bool)
    ensures
        is_release(*b, b.major, b.minor, b.patch) ==> r == is_behind(
            *a,
            b.major,
            b.minor,
            b.patch,
        ),
{
    a > b
}

/// A version of the Solidity language for which there is a grammar.
#[derive(Clone, Copy, Debug, PartialEq, Eq, Structural)]
pub struct LanguageVersion {
    pub major: u64,
    pub minor: u64,
    pub patch: u64,
}

/// Why there is no language version for a version.
#[derive(Debug)]
pub enum FromSemverError {
    /// There is no grammar for the version.
    UnsupportedVersion {
        /// What the error says to a reader.
        message: String,
    },
    /// Any other reason.
    Other {
        /// What the error says to a reader.
        message: String,
    },
}

impl FromSemverError {
    /// What the error says to a reader.
    pub open spec fn text(self) -> Seq<char> {
        match self {
            FromSemverError::UnsupportedVersion { message } => message@,
            FromSemverError::Other { message } => message@,
        }
    }

    /// What the error says to a reader.
    pub fn message(&self) -> (r: String)
        ensures
            r@ == self.text(),
    {
        match self {
            FromSemverError::UnsupportedVersion { message } => message.clone(),
            FromSemverError::Other { message } => message.clone(),
        }
    }
}

/// Whether the version has a pre-release tag or build metadata, which
/// [`strip_metadata`] takes away.
pub fn has_metadata(version: &Version) -> (r: bool)
    ensures
        r == !is_release(*version, version.major, version.minor, version.patch),
{
    version.pre.as_str().unicode_len() > 0 || version.build.as_str().unicode_len() > 0
}

/// The version without its pre-release tag and build metadata: a solc version
/// like `0.8.24+commit.abcdef` maps to the language version 0.8.24.
pub fn strip_metadata(solc_version: &Version) -> (r: Version)
    ensures
        is_release(r, solc_version.major, solc_version.minor, solc_version.patch),
{
    Version::new(solc_version.major, solc_version.minor, solc_version.patch)
}

/// The language version for which `found` is what the grammars offer for the
/// stripped version, clamping versions newer than `latest`, the last one that
/// they support, down to it.
pub open spec fn language_version_for(
    solc_version: Version,
    found: Result<LanguageVersion, FromSemverError>,
    latest: LanguageVersion,
) -> Result<LanguageVersion, FromSemverError> {
    if found matches Err(FromSemverError::UnsupportedVersion { .. }) && is_behind(
        solc_version,
        latest.major,
        latest.minor,
        latest.patch,
    ) {
        Ok(latest)
    } else {
        found
    }
}

/// Maps a solc [`Version`] to a [`LanguageVersion`], where `found` is what the
/// grammars offer for the stripped version; versions newer than `latest`, the
/// last one that they support, are clamped down to it.
pub fn to_language_version(
    solc_version: &Version,
    found: Result<LanguageVersion, FromSemverError>,
    latest: LanguageVersion,
) -> (r: Result<LanguageVersion, FromSemverError>)
    ensures
        r == language_version_for(*solc_version, found, latest),
{
    match found {
        Ok(version) => Ok(version),
        Err(FromSemverError::UnsupportedVersion { message }) => {
            let latest_version = Version::new(latest.major, latest.minor, latest.patch);
            if is_greater(solc_version, &latest_version) {
                Ok(latest)
            } else {
                Err(FromSemverError::UnsupportedVersion { message })
            }
        },
        Err(other) => Err(other),
    }
}

/// Pre-release tags and build metadata make no difference, unless the numbers are
/// those of the latest supported version and there is no grammar for them.
pub proof fn law_metadata_makes_no_difference(
    a: Version,
    b: Version,
    found: Result<LanguageVersion, FromSemverError>,
    latest: LanguageVersion,
)
    requires
        a.major == b.major,
        a.minor == b.minor,
        a.patch == b.patch,
        found matches Err(FromSemverError::UnsupportedVersion { .. }) ==> (
            a.major,
            a.minor,
            a.patch,
        ) != (latest.major, latest.minor, latest.patch),
    ensures
        language_version_for(a, found, latest) == language_version_for(b, found, latest),
{
}

/// The numbers of a version.
pub open spec fn numbers(v: Version) -> LanguageVersion {
    LanguageVersion { major: v.major, minor: v.minor, patch: v.patch }
}

/// Whether `a` is `b` or comes in front of it.
pub open spec fn is_up_to(a: LanguageVersion, b: LanguageVersion) -> bool {
    if a.major != b.major {
        a.major < b.major
    } else if a.minor != b.minor {
        a.minor < b.minor
    } else {
        a.patch <= b.patch
    }
}

/// The first language version for which there is a grammar.
pub open spec fn earliest() -> LanguageVersion {
    LanguageVersion { major: 0, minor: 8, patch: 0 }
}

/// Whether `found` is what grammars for all versions from the earliest to
/// `latest` offer for the numbers of `v`.
pub open spec fn is_offer(
    found: Result<LanguageVersion, FromSemverError>,
    v: Version,
    latest: LanguageVersion,
) -> bool {
    if is_up_to(earliest(), numbers(v)) && is_up_to(numbers(v), latest) {
        found == Ok::<LanguageVersion, FromSemverError>(numbers(v))
    } else {
        found matches Err(FromSemverError::UnsupportedVersion { .. })
    }
}

/// Where there are grammars for all versions from the earliest to `latest`, only
/// versions in front of the earliest have no language version. Metadata makes no
/// difference, and a later version has no earlier language version.
pub proof fn law_versions_are_clamped_in_order(
    v: Version,
    w: Version,
    found_v: Result<LanguageVersion, FromSemverError>,
    found_w: Result<LanguageVersion, FromSemverError>,
    latest: LanguageVersion,
)
    requires
        is_up_to(earliest(), latest),
        is_offer(found_v, v, latest),
        is_offer(found_w, w, latest),
        is_up_to(numbers(v), numbers(w)),
    ensures
        language_version_for(v, found_v, latest) is Err <==> !is_up_to(earliest(), numbers(v)),
        language_version_for(v, found_v, latest) matches Err(error)
            ==> error is UnsupportedVersion,
        forall|other: Version|
            numbers(other) == numbers(v) ==> #[trigger] language_version_for(other, found_v, latest)
                == language_version_for(v, found_v, latest),
        language_version_for(v, found_v, latest) matches Ok(a) ==> {
            &&& language_version_for(w, found_w, latest) matches Ok(b)
            &&& is_up_to(a, b)
            &&& is_up_to(b, latest)
        },
{
    assert forall|other: Version|
        numbers(other) == numbers(v) implies #[trigger] language_version_for(
        other,
        found_v,
        latest,
    ) == language_version_for(v, found_v, latest) by {
        assert(numbers(other).major == other.major && numbers(other).minor == other.minor);
        assert(numbers(other).patch == other.patch);
        law_metadata_makes_no_difference(other, v, found_v, latest);
    }
}

} // verus!
