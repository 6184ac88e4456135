use bv::version::SemanticVersion;
use bv::version::VersionParseError;

#[test]
fn parse_full_version() {
    let v = SemanticVersion::parse("1.4.2-beta+build.7").unwrap();
    assert_eq!(v.major, 1);
    assert_eq!(v.minor, 4);
    assert_eq!(v.patch, 2);
    assert_eq!(v.pre_release, Some(String::from("beta")));
    assert_eq!(v.build, Some(String::from("build.7")));
    assert_eq!(v.format(), "1.4.2-beta+build.7");
}

#[test]
fn parse_core_only() {
    let v = SemanticVersion::parse("0.0.0").unwrap();
    assert_eq!(v.major, 0);
    assert_eq!(v.minor, 0);
    assert_eq!(v.patch, 0);
    assert_eq!(v.pre_release, None);
    assert_eq!(v.build, None);
    assert_eq!(v.format(), "0.0.0");
}

#[test]
fn parse_pre_release_only() {
    let v = SemanticVersion::parse("2.10.33-rc.1").unwrap();
    assert_eq!(v.major, 2);
    assert_eq!(v.minor, 10);
    assert_eq!(v.patch, 33);
    assert_eq!(v.pre_release, Some(String::from("rc.1")));
    assert_eq!(v.build, None);
    assert_eq!(v.format(), "2.10.33-rc.1");
}

#[test]
fn parse_build_only() {
    let v = SemanticVersion::parse("3.2.1+nightly").unwrap();
    assert_eq!(v.pre_release, None);
    assert_eq!(v.build, Some(String::from("nightly")));
    assert_eq!(v.format(), "3.2.1+nightly");
}

#[test]
fn build_may_contain_hyphens() {
    let v = SemanticVersion::parse("1.2.3+build-1").unwrap();
    assert_eq!(v.pre_release, None);
    assert_eq!(v.build, Some(String::from("build-1")));
    assert_eq!(v.format(), "1.2.3+build-1");
}

#[test]
fn reject_two_segments() {
    assert_eq!(
        SemanticVersion::parse("1.2"),
        Err(VersionParseError::NotThreeSegments)
    );
}

#[test]
fn reject_four_segments() {
    assert_eq!(
        SemanticVersion::parse("1.2.3.4"),
        Err(VersionParseError::NotThreeSegments)
    );
}

#[test]
fn reject_non_numeric_segments() {
    assert_eq!(
        SemanticVersion::parse("a.b.c"),
        Err(VersionParseError::InvalidNumber)
    );
}

#[test]
fn reject_two_hyphens_before_build() {
    assert_eq!(
        SemanticVersion::parse("1.2.3-x-y"),
        Err(VersionParseError::TooManyHyphens)
    );
}

#[test]
fn reject_two_plus_signs() {
    assert_eq!(
        SemanticVersion::parse("1.2.3+x+y"),
        Err(VersionParseError::TooManyPluses)
    );
}

#[test]
fn reject_empty_segment() {
    assert_eq!(
        SemanticVersion::parse("1..3"),
        Err(VersionParseError::InvalidNumber)
    );
}

#[test]
fn reject_empty_string() {
    assert_eq!(
        SemanticVersion::parse(""),
        Err(VersionParseError::NotThreeSegments)
    );
}

#[test]
fn component_ceiling_is_accepted() {
    let v = SemanticVersion::parse("32767.32767.32767").unwrap();
    assert_eq!(v.major, 32767);
    assert_eq!(v.minor, 32767);
    assert_eq!(v.patch, 32767);
}

#[test]
fn reject_component_past_ceiling() {
    assert_eq!(
        SemanticVersion::parse("32768.0.0"),
        Err(VersionParseError::InvalidNumber)
    );
}

#[test]
fn leading_zeros_parse_and_normalize() {
    let v = SemanticVersion::parse("01.002.0003").unwrap();
    assert_eq!(v.major, 1);
    assert_eq!(v.minor, 2);
    assert_eq!(v.patch, 3);
    assert_eq!(v.format(), "1.2.3");
}

#[test]
fn format_then_parse_round_trip() {
    let samples = [
        "0.0.0",
        "1.2.3",
        "10.20.30",
        "1.2.3-alpha",
        "1.2.3+b",
        "1.2.3-alpha.2+linux-x86",
        "32767.0.1",
    ];
    for s in samples {
        let v = SemanticVersion::parse(s).unwrap();
        let rendered = v.format();
        assert_eq!(rendered, *s);
        let again = SemanticVersion::parse(&rendered).unwrap();
        assert_eq!(again, v);
        assert_eq!(again.format(), rendered);
    }
}

#[test]
fn hyphen_inside_numeric_core_is_pre_release_split() {
    // The first '-' before any '+' starts the pre-release tag, so the
    // core ends with an empty third segment.
    assert_eq!(
        SemanticVersion::parse("1.2.-3"),
        Err(VersionParseError::InvalidNumber)
    );
}

#[test]
fn error_messages_name_the_reason() {
    assert_eq!(
        SemanticVersion::parse("1.2.3+x+y").unwrap_err().message(),
        "Too many '+' symbols in version string"
    );
    assert_eq!(
        SemanticVersion::parse("1.2.3-x-y").unwrap_err().message(),
        "Too many '-' symbols in version string"
    );
    assert_eq!(
        SemanticVersion::parse("1.2").unwrap_err().message(),
        "Expected format: [0-9]+.[0-9]+.[0-9]+"
    );
    assert_eq!(
        SemanticVersion::parse("a.b.c").unwrap_err().message(),
        "Expected a number between 0 and 32767 in each segment"
    );
}
