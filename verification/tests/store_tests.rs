use bv::store::BvConfig;
use bv::store::ModuleConfig;
use bv::store::ModuleFile;
use bv::store::RegexPatterns;
use bv::store::VersionScheme;
use bv::store::is_default_regex_patterns;
use bv::version::SemanticVersion;

fn semver(major: i16, minor: i16, patch: i16) -> VersionScheme {
    VersionScheme::Semantic(SemanticVersion {
        major,
        minor,
        patch,
        pre_release: None,
        build: None,
    })
}

fn sample_store() -> BvConfig {
    BvConfig {
        modules: Some(vec![
            ModuleConfig {
                current_version: Some(semver(1, 2, 3)),
                files: Some(vec![
                    ModuleFile {
                        path: String::from("src/lib.rs"),
                        regex: Some(RegexPatterns {
                            replace_pattern: Some(String::from("version = $1")),
                            search_pattern: Some(String::from("version = (.*)")),
                        }),
                        version: VersionScheme::Semantic(SemanticVersion {
                            major: 1,
                            minor: 4,
                            patch: 2,
                            pre_release: Some(String::from("beta")),
                            build: Some(String::from("build.7")),
                        }),
                    },
                    ModuleFile {
                        path: String::from("docs/index.md"),
                        regex: None,
                        version: semver(0, 9, 0),
                    },
                ]),
                name: Some(String::from("core")),
            },
            ModuleConfig {
                current_version: None,
                files: None,
                name: None,
            },
            ModuleConfig {
                current_version: None,
                files: Some(vec![]),
                name: Some(String::from("empty-module")),
            },
        ]),
    }
}

#[test]
fn default_store_has_no_modules() {
    let c = BvConfig::default();
    assert_eq!(c.modules, None);
}

#[test]
fn default_store_renders_to_empty_text() {
    assert_eq!(BvConfig::default().to_text(), "");
}

#[test]
fn load_empty_text_gives_default() {
    let c = BvConfig::from_text("");
    assert_eq!(c, BvConfig::default());
    assert_eq!(c.modules, None);
}

#[test]
fn load_malformed_text_gives_default() {
    let c = BvConfig::from_text("not: [valid, schema");
    assert_eq!(c, BvConfig::default());
}

#[test]
fn malformed_text_is_reported_as_unparsable() {
    assert_eq!(BvConfig::parse_config("not: [valid, schema"), None);
    assert!(BvConfig::parse_config("").is_some());
}

#[test]
fn absent_modules_differ_from_empty_modules() {
    let absent = BvConfig::from_text("");
    let empty = BvConfig::from_text("modules: []");
    assert_eq!(absent.modules, None);
    assert_eq!(empty.modules, Some(vec![]));
    assert_ne!(absent, empty);
}

#[test]
fn empty_modules_round_trip() {
    let c = BvConfig {
        modules: Some(vec![]),
    };
    assert_eq!(c.to_text(), "modules: []");
    assert_eq!(BvConfig::from_text(&c.to_text()), c);
}

#[test]
fn sample_store_rendering_is_exact() {
    let text = sample_store().to_text();
    let expected = [
        "modules:",
        "-",
        "  name: core",
        "  current_version: {Semantic: 1.2.3}",
        "  files:",
        "  -",
        "    path: src/lib.rs",
        "    search_pattern: version = (.*)",
        "    replace_pattern: version = $1",
        "    version: {Semantic: 1.4.2-beta+build.7}",
        "  -",
        "    path: docs/index.md",
        "    version: {Semantic: 0.9.0}",
        "-",
        "-",
        "  name: empty-module",
        "  files: []",
    ]
    .join("\n");
    assert_eq!(text, expected);
}

#[test]
fn save_then_load_gives_back_the_store() {
    let s = sample_store();
    let text = s.to_text();
    let loaded = BvConfig::from_text(&text);
    assert_eq!(loaded, s);
}

#[test]
fn load_is_idempotent_on_rendered_text() {
    let s = sample_store();
    let once = BvConfig::from_text(&s.to_text());
    let twice = BvConfig::from_text(&once.to_text());
    assert_eq!(once, twice);
}

#[test]
fn module_with_search_pattern_only_round_trips() {
    let s = BvConfig {
        modules: Some(vec![ModuleConfig {
            current_version: None,
            files: Some(vec![ModuleFile {
                path: String::from("a"),
                regex: Some(RegexPatterns {
                    replace_pattern: None,
                    search_pattern: Some(String::from("v(.*)")),
                }),
                version: semver(4, 5, 6),
            }]),
            name: None,
        }]),
    };
    assert_eq!(BvConfig::from_text(&s.to_text()), s);
}

#[test]
fn module_with_replace_pattern_only_round_trips() {
    let s = BvConfig {
        modules: Some(vec![ModuleConfig {
            current_version: None,
            files: Some(vec![ModuleFile {
                path: String::from("a"),
                regex: Some(RegexPatterns {
                    replace_pattern: Some(String::from("v$1")),
                    search_pattern: None,
                }),
                version: semver(4, 5, 6),
            }]),
            name: None,
        }]),
    };
    assert_eq!(BvConfig::from_text(&s.to_text()), s);
}

#[test]
fn trailing_garbage_gives_default() {
    let mut text = sample_store().to_text();
    text.push_str("\nunexpected: line");
    assert_eq!(BvConfig::from_text(&text), BvConfig::default());
}

#[test]
fn default_regex_patterns_recognized() {
    assert!(is_default_regex_patterns(&RegexPatterns::default()));
    assert!(is_default_regex_patterns(&RegexPatterns {
        replace_pattern: None,
        search_pattern: None,
    }));
    assert!(!is_default_regex_patterns(&RegexPatterns {
        replace_pattern: None,
        search_pattern: Some(String::from("x")),
    }));
}

#[test]
fn malformed_version_inside_config_gives_default() {
    let text = "modules:\n-\n  current_version: {Semantic: 1.2}";
    assert_eq!(BvConfig::from_text(text), BvConfig::default());
}
