use antinode::handshake::{implied_stm_version, Banner, Version};

#[test]
fn parses_the_two_processor_banner() {
    let b = Banner::parse("S1.2.3_E2.7.0\n").unwrap();
    assert_eq!(
        b.stm,
        Version {
            major: 1,
            minor: 2,
            patch: 3
        }
    );
    assert_eq!(
        b.esp,
        Version {
            major: 2,
            minor: 7,
            patch: 0
        }
    );
    assert!(!b.stm_was_implied);
}

#[test]
fn parses_the_legacy_single_version_banner_and_flags_the_assumption() {
    let b = Banner::parse("@version 2.7.0\n").unwrap();
    assert_eq!(
        b.esp,
        Version {
            major: 2,
            minor: 7,
            patch: 0
        }
    );
    assert_eq!(b.stm, implied_stm_version());
    assert!(
        b.stm_was_implied,
        "a caller must be able to tell an assumed version from a reported one"
    );
}

#[test]
fn tolerates_a_missing_newline_and_crlf() {
    assert!(Banner::parse("S1.2.3_E2.7.0").is_some());
    assert!(Banner::parse("S1.2.3_E2.7.0\r\n").is_some());
}

#[test]
fn short_versions_fill_with_zero() {
    assert_eq!(
        Version::parse("2.7"),
        Some(Version {
            major: 2,
            minor: 7,
            patch: 0
        })
    );
    assert_eq!(
        Version::parse("3"),
        Some(Version {
            major: 3,
            minor: 0,
            patch: 0
        })
    );
}

#[test]
fn rejects_things_that_are_not_banners() {
    // A JSON-RPC reply must not be mistaken for a banner.
    assert!(Banner::parse(r#"{"jsonrpc":"2.0","id":1}"#).is_none());
    assert!(Banner::parse("").is_none());
    assert!(
        Banner::parse("S1.2.3").is_none(),
        "missing the _E separator"
    );
    assert!(Banner::parse("Snonsense_Emore").is_none());
    assert!(Banner::parse("@version ").is_none());
    assert!(Version::parse("1.2.3.4").is_none());
}

#[test]
fn versions_display_and_order() {
    assert_eq!(Version::parse("2.7.1").unwrap().to_string(), "2.7.1");
    assert!(Version::parse("2.7.0") < Version::parse("2.7.1"));
    assert!(Version::parse("1.9.9") < Version::parse("2.0.0"));
}

#[test]
fn implied_stm_version_is_one_two_two() {
    assert_eq!(
        implied_stm_version(),
        Version {
            major: 1,
            minor: 2,
            patch: 2
        }
    );
}

#[test]
fn a_non_numeric_minor_or_patch_reads_as_zero() {
    assert_eq!(
        Version::parse("2.x.5"),
        Some(Version {
            major: 2,
            minor: 0,
            patch: 5
        })
    );
    assert_eq!(
        Version::parse(" 4 . 1 .  "),
        Some(Version {
            major: 4,
            minor: 1,
            patch: 0
        })
    );
    assert_eq!(Version::parse("x.1.2"), None);
    assert_eq!(Version::parse(".1"), None);
    assert_eq!(Version::parse("   "), None);
}

#[test]
fn components_follow_u16_parsing() {
    assert_eq!(
        Version::parse("+65535.007"),
        Some(Version {
            major: 65535,
            minor: 7,
            patch: 0
        })
    );
    assert_eq!(Version::parse("65536"), None);
    // Non-digits are dropped from each component, a sign included.
    assert_eq!(
        Version::parse("-1.2.3"),
        Some(Version {
            major: 1,
            minor: 2,
            patch: 3
        })
    );
    assert_eq!(
        Version::parse("1.65536.2"),
        Some(Version {
            major: 1,
            minor: 0,
            patch: 2
        })
    );
}

#[test]
fn unicode_whitespace_is_trimmed_like_str_trim() {
    assert_eq!(
        Version::parse("\u{3000}\t2.7.1\u{a0}\n"),
        Some(Version {
            major: 2,
            minor: 7,
            patch: 1
        })
    );
}

#[test]
fn the_first_separator_splits_the_two_versions() {
    // Only the first "_E" splits; the digits of "2_E3" read as 23.
    let b = Banner::parse("S1.0_E2_E3").unwrap();
    assert_eq!(b.stm, Version { major: 1, minor: 0, patch: 0 });
    assert_eq!(b.esp, Version { major: 23, minor: 0, patch: 0 });
    assert!(!b.stm_was_implied);
    let b = Banner::parse("S 1.0 _E 2.1 \r\r\n").unwrap();
    assert_eq!(b.stm, Version { major: 1, minor: 0, patch: 0 });
    assert_eq!(b.esp, Version { major: 2, minor: 1, patch: 0 });
}

#[test]
fn a_banner_ignores_its_line_ending() {
    for text in ["S3.4.5_E6.7.8", "@version 9.1"] {
        let plain = Banner::parse(text);
        assert_eq!(Banner::parse(&format!("{text}\n")), plain);
        assert_eq!(Banner::parse(&format!("{text}\r\n")), plain);
    }
}

#[test]
fn a_version_reads_back_from_its_text() {
    for v in [
        Version { major: 0, minor: 0, patch: 0 },
        Version { major: 65535, minor: 10, patch: 909 },
    ] {
        assert_eq!(Version::parse(&v.to_string()), Some(v));
    }
}

#[test]
fn the_legacy_banner_alone_is_flagged() {
    let legacy = Banner::parse("@version 1.2.3").unwrap();
    assert!(legacy.stm_was_implied);
    assert_eq!(legacy.stm, implied_stm_version());
    let reported = Banner::parse("S1.2.2_E1.2.3").unwrap();
    assert!(!reported.stm_was_implied);
    assert_eq!(reported.stm, implied_stm_version());
    assert!(Banner::parse("@Version 1.2.3").is_none());
}

#[test]
fn the_devices_own_spelling_reads() {
    assert_eq!(
        Version::parse("V1.2.3"),
        Some(Version { major: 1, minor: 2, patch: 3 })
    );
    assert_eq!(
        Version::parse("v2.7b.0rc1"),
        Some(Version { major: 2, minor: 7, patch: 1 })
    );
    let b = Banner::parse("SV1.2.3_EV2.7.0\n").unwrap();
    assert_eq!(b.stm, Version { major: 1, minor: 2, patch: 3 });
    assert_eq!(b.esp, Version { major: 2, minor: 7, patch: 0 });
    assert_eq!(Version::parse("V.1"), None);
    assert_eq!(Version::parse("1 2.3"), Some(Version { major: 12, minor: 3, patch: 0 }));
}
