use bump2version::text::{numeral_bytes, parse_numeral};
use bump2version::version::{
    attempt_version_bump, bump_version_parts, dedup_pairs, parse_default_version,
    render_template, template_order,
};
use bump2version::BumpError;

const DEFAULT_PARSE: &[u8] = br"(?P<major>\d+)\.(?P<minor>\d+)\.(?P<patch>\d+)";
const DEFAULT_SERIALIZE: &[u8] = b"{major}.{minor}.{patch}";

#[test]
fn bump_patch_of_1_2_3() {
    let r = attempt_version_bump(b"1.2.3", DEFAULT_PARSE, DEFAULT_SERIALIZE, b"patch");
    assert_eq!(r, Ok(Some(b"1.2.4".to_vec())));
}

#[test]
fn bump_minor_resets_patch() {
    let r = attempt_version_bump(b"1.2.3", DEFAULT_PARSE, DEFAULT_SERIALIZE, b"minor");
    assert_eq!(r, Ok(Some(b"1.3.0".to_vec())));
}

#[test]
fn bump_major_resets_minor_and_patch() {
    let r = attempt_version_bump(b"1.2.3", DEFAULT_PARSE, DEFAULT_SERIALIZE, b"major");
    assert_eq!(r, Ok(Some(b"2.0.0".to_vec())));
}

#[test]
fn target_outside_template_is_no_new_version() {
    let r = attempt_version_bump(b"1.2.3", DEFAULT_PARSE, DEFAULT_SERIALIZE, b"build");
    assert_eq!(r, Ok(None));
}

#[test]
fn invalid_pattern_is_pattern_error() {
    let r = attempt_version_bump(b"1.2.3", b"(", DEFAULT_SERIALIZE, b"patch");
    assert_eq!(r, Err(BumpError::Pattern));
}

#[test]
fn non_matching_pattern_is_pattern_error() {
    let r = attempt_version_bump(b"abc", DEFAULT_PARSE, DEFAULT_SERIALIZE, b"patch");
    assert_eq!(r, Err(BumpError::Pattern));
}

#[test]
fn non_numeric_component_is_an_error() {
    let parse = br"(?P<major>\d+)\.(?P<minor>[a-z]+)\.(?P<patch>\d+)";
    let r = attempt_version_bump(b"1.x.3", parse, DEFAULT_SERIALIZE, b"minor");
    assert_eq!(r, Err(BumpError::NonNumericComponent));
}

#[test]
fn component_too_large_to_increment_is_an_error() {
    let r = attempt_version_bump(
        b"18446744073709551615.0.0",
        DEFAULT_PARSE,
        DEFAULT_SERIALIZE,
        b"major",
    );
    assert_eq!(r, Err(BumpError::NonNumericComponent));
}

#[test]
fn template_name_without_value_is_serialization_error() {
    let r = attempt_version_bump(b"1.2.3", DEFAULT_PARSE, b"{major}.{minor}.{build}", b"major");
    assert_eq!(r, Err(BumpError::Serialization));
}

#[test]
fn bump_keeps_components_before_the_target() {
    let r = attempt_version_bump(b"10.20.30", DEFAULT_PARSE, DEFAULT_SERIALIZE, b"minor");
    assert_eq!(r, Ok(Some(b"10.21.0".to_vec())));
}

#[test]
fn padded_component_is_bumped_to_canonical_form() {
    let r = attempt_version_bump(b"1.2.007", DEFAULT_PARSE, DEFAULT_SERIALIZE, b"patch");
    assert_eq!(r, Ok(Some(b"1.2.8".to_vec())));
}

#[test]
fn serialize_then_parse_is_identity() {
    let r = attempt_version_bump(b"1.2.3", DEFAULT_PARSE, DEFAULT_SERIALIZE, b"patch").unwrap();
    let new_version = r.unwrap();
    let (a, b, c) = parse_default_version(&new_version).unwrap();
    assert_eq!(a, b"1".to_vec());
    assert_eq!(b, b"2".to_vec());
    assert_eq!(c, b"4".to_vec());
}

#[test]
fn parse_default_takes_leftmost_match() {
    let r = parse_default_version(b"release 10.2.33 and 4.5.6");
    let (a, b, c) = r.unwrap();
    assert_eq!(a, b"10".to_vec());
    assert_eq!(b, b"2".to_vec());
    assert_eq!(c, b"33".to_vec());
}

#[test]
fn parse_default_rejects_two_part_version() {
    assert_eq!(parse_default_version(b"1.2"), None);
}

#[test]
fn template_order_lists_names_in_order() {
    let order = template_order(b"{major}.{minor}.{patch}");
    let names: Vec<Vec<u8>> = vec![b"major".to_vec(), b"minor".to_vec(), b"patch".to_vec()];
    assert_eq!(order, names);
}

#[test]
fn template_order_trims_names_and_keeps_unclosed_tail() {
    let order = template_order(b"{ major }-{minor");
    let names: Vec<Vec<u8>> = vec![b"major".to_vec(), b"minor".to_vec()];
    assert_eq!(order, names);
}

#[test]
fn render_template_substitutes_every_placeholder() {
    let parts = vec![
        (b"major".to_vec(), b"3".to_vec()),
        (b"minor".to_vec(), b"1".to_vec()),
    ];
    let r = render_template(b"v{major}.{minor}+{major}", &parts);
    assert_eq!(r, Ok(b"v3.1+3".to_vec()));
}

#[test]
fn render_template_reports_missing_name() {
    let parts = vec![(b"major".to_vec(), b"3".to_vec())];
    let r = render_template(b"{major}.{minor}", &parts);
    assert_eq!(r, Err(BumpError::Serialization));
}

#[test]
fn bump_version_parts_increments_only_the_target() {
    let parts = vec![
        (b"major".to_vec(), b"1".to_vec()),
        (b"minor".to_vec(), b"2".to_vec()),
        (b"patch".to_vec(), b"9".to_vec()),
    ];
    let order = vec![b"major".to_vec(), b"minor".to_vec(), b"patch".to_vec()];
    let r = bump_version_parts(&parts, &order, b"minor").unwrap().unwrap();
    let expected = vec![
        (b"major".to_vec(), b"1".to_vec()),
        (b"minor".to_vec(), b"3".to_vec()),
        (b"patch".to_vec(), b"0".to_vec()),
    ];
    assert_eq!(r, expected);
}

#[test]
fn dedup_pairs_keeps_first_occurrence() {
    let parts = vec![
        (b"major".to_vec(), b"1".to_vec()),
        (b"major".to_vec(), b"9".to_vec()),
        (b"minor".to_vec(), b"2".to_vec()),
    ];
    let r = dedup_pairs(&parts);
    let expected = vec![
        (b"major".to_vec(), b"1".to_vec()),
        (b"minor".to_vec(), b"2".to_vec()),
    ];
    assert_eq!(r, expected);
}

#[test]
fn parse_numeral_reads_decimal_digits() {
    assert_eq!(parse_numeral(b"0"), Some(0));
    assert_eq!(parse_numeral(b"007"), Some(7));
    assert_eq!(parse_numeral(b"1234"), Some(1234));
    assert_eq!(parse_numeral(b"18446744073709551615"), Some(u64::MAX));
    assert_eq!(parse_numeral(b""), None);
    assert_eq!(parse_numeral(b"12a"), None);
    assert_eq!(parse_numeral(b"18446744073709551616"), None);
}

#[test]
fn default_cli_matches_stock_settings() {
    let cli = bump2version::cli::Cli::default();
    assert_eq!(cli.config_file, ".bumpversion.toml");
    assert_eq!(cli.bump, "patch");
    assert_eq!(cli.parse, r"(?P<major>\d+)\.(?P<minor>\d+)\.(?P<patch>\d+)");
    assert_eq!(cli.serialize, "{major}.{minor}.{patch}");
    assert_eq!(cli.current_version, None);
    assert_eq!(cli.new_version, None);
    assert!(cli.commit && !cli.tag && !cli.dry_run);
    assert_eq!(cli.message, "Bump version: {current_version} → {new_version}");
    assert!(cli.files.is_empty());
}

#[test]
fn default_cli_drives_a_patch_bump() {
    let cli = bump2version::cli::Cli::default();
    let r = attempt_version_bump(
        b"0.9.9",
        cli.parse.as_bytes(),
        cli.serialize.as_bytes(),
        cli.bump.as_bytes(),
    );
    assert_eq!(r, Ok(Some(b"0.9.10".to_vec())));
}

#[test]
fn numeral_bytes_prints_canonical_decimals() {
    assert_eq!(numeral_bytes(0), b"0".to_vec());
    assert_eq!(numeral_bytes(10), b"10".to_vec());
    assert_eq!(numeral_bytes(90071), b"90071".to_vec());
}
