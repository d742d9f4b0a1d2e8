use psolve_cli::catalog::{
    classify_catalog_file, jobs_setting, member_flag, member_number, mirror_shortfall, query_format,
    MirrorShortfall,
    valid_index_name, CatalogFileKind, QueryFormat,
};
use psolve_cli::json::{hex_bytes, json_escape, no_hint_json};
use psolve_cli::text::{trimmed, usize_to_decimal};

#[test]
fn json_escape_escapes_quotes_backslashes_and_controls() {
    assert_eq!(json_escape("plain"), "plain");
    assert_eq!(json_escape("a\"b\\c"), "a\\\"b\\\\c");
    assert_eq!(json_escape("l1\nl2\r\t"), "l1\\nl2\\r\\t");
    assert_eq!(json_escape("\u{1}\u{1f}"), "\\u0001\\u001f");
    assert_eq!(json_escape("é"), "é");
}

#[test]
fn hex_bytes_are_two_lowercase_digits_each() {
    assert_eq!(hex_bytes(&[0x00, 0x0f, 0xab, 0xff]), "000fabff");
    assert_eq!(hex_bytes(&[]), "");
}

#[test]
fn index_names_are_short_printable_ascii() {
    assert!(valid_index_name("gaia-dr3-g14-nside64"));
    assert!(!valid_index_name(""));
    assert!(!valid_index_name(&"x".repeat(33)));
    assert!(valid_index_name(&"x".repeat(32)));
    assert!(!valid_index_name("has space"));
    assert!(!valid_index_name("q\"uote"));
    assert!(!valid_index_name("back\\slash"));
    assert!(!valid_index_name("é"));
}

#[test]
fn jobs_must_be_a_positive_integer() {
    assert_eq!(jobs_setting("4"), Ok(4));
    assert_eq!(jobs_setting("0"), Err("psolve index build: --jobs must be at least 1".to_string()));
    assert_eq!(
        jobs_setting("-2"),
        Err("psolve index build: --jobs must be a non-negative integer".to_string())
    );
}

#[test]
fn query_format_is_csv_or_ndjson() {
    assert_eq!(query_format(None), Ok(QueryFormat::Csv));
    assert_eq!(query_format(Some("csv")), Ok(QueryFormat::Csv));
    assert_eq!(query_format(Some("ndjson")), Ok(QueryFormat::Ndjson));
    assert_eq!(
        query_format(Some("json")),
        Err("psolve index query: --format must be csv or ndjson, got \"json\"".to_string())
    );
}

#[test]
fn catalogue_files_are_classified_by_name() {
    assert_eq!(classify_catalog_file("GaiaSource_000.csv"), CatalogFileKind::Csv);
    assert_eq!(classify_catalog_file("GaiaSource_000.csv.gz"), CatalogFileKind::Compressed);
    assert_eq!(classify_catalog_file("x.bz2"), CatalogFileKind::Compressed);
    assert_eq!(classify_catalog_file("x.zst"), CatalogFileKind::Compressed);
    assert_eq!(classify_catalog_file("mirror.json"), CatalogFileKind::Other);
}

#[test]
fn mirror_members_are_read_from_the_manifest_text() {
    let txt = r#"{"max_mag": 14.5, "min_dec" :-90, "max_dec":  +30.0e0, "files": 3386, "complete": false}"#;
    assert_eq!(member_number(txt, "max_mag").as_deref(), Some("14.5"));
    assert_eq!(member_number(txt, "min_dec").as_deref(), Some("-90"));
    assert_eq!(member_number(txt, "max_dec").as_deref(), Some("+30.0e0"));
    assert_eq!(member_number(txt, "files").as_deref(), Some("3386"));
    assert_eq!(member_number(txt, "missing"), None);
    assert_eq!(member_flag(txt, "complete"), Some(false));
    assert_eq!(member_flag(r#"{"complete":true}"#, "complete"), Some(true));
    assert_eq!(member_flag(r#"{"complete": "yes"}"#, "complete"), None);
    assert_eq!(member_flag(txt, "absent"), None);
}

#[test]
fn decimal_and_trim_helpers() {
    assert_eq!(usize_to_decimal(0), "0");
    assert_eq!(usize_to_decimal(2880), "2880");
    assert_eq!(usize_to_decimal(usize::MAX), usize::MAX.to_string());
    assert_eq!(trimmed("  a b \n"), "a b");
}

#[test]
fn a_short_mirror_refuses_unless_partial_is_allowed() {
    assert_eq!(mirror_shortfall(false, Some(10), 10, false), Some(MirrorShortfall::IncompleteFetch));
    assert_eq!(
        mirror_shortfall(true, Some(10), 9, false),
        Some(MirrorShortfall::MissingFiles { actual: 9, expected: 10 })
    );
    assert_eq!(mirror_shortfall(true, Some(10), 10, false), None);
    assert_eq!(mirror_shortfall(true, None, 0, false), None);
    assert_eq!(mirror_shortfall(false, Some(10), 1, true), None);
}

#[test]
fn the_no_hint_result_carries_build_and_index_name() {
    assert_eq!(
        no_hint_json("v1", "gaia-dr3-g14-nside64"),
        "{\"psolve\":\"0.1.0\",\"build\":\"v1\",\"solved\":false,\"reason\":\"NO_HINT\",\
\"detail\":\"no pointing hint: pass --hint or supply OBJCTRA/OBJCTDEC or RA/DEC\",\
\"index\":{\"name\":\"gaia-dr3-g14-nside64\"}}"
    );
    assert!(no_hint_json("a\"b", "x").contains("\"build\":\"a\\\"b\""));
}

#[test]
fn json_escape_leaves_no_control_character_and_reads_back() {
    let s = "a\"b\\c\nd\re\tf\u{1}g\u{1f}h";
    let e = json_escape(s);
    assert!(e.chars().all(|c| c as u32 >= 0x20));
    assert_eq!(e, "a\\\"b\\\\c\\nd\\re\\tf\\u0001g\\u001fh");
}
