use bump2version::utils::{get_current_version_from_config, read_files_from_config};

#[test]
fn reads_current_version_from_config() {
    let content = b"[bumpversion]\ncurrent_version = 1.2.3\n";
    assert_eq!(
        get_current_version_from_config(content),
        Some(b"1.2.3".to_vec())
    );
}

#[test]
fn reads_version_with_tight_spacing() {
    let content = b"[bumpversion]current_version=7.8.9";
    assert_eq!(
        get_current_version_from_config(content),
        Some(b"7.8.9".to_vec())
    );
}

#[test]
fn reads_two_part_version() {
    let content = b"[bumpversion]\ncurrent_version = 1.2\n";
    assert_eq!(
        get_current_version_from_config(content),
        Some(b"1.2".to_vec())
    );
}

#[test]
fn version_capture_stops_after_three_parts() {
    let content = b"[bumpversion]\ncurrent_version = 1.2.3.4\n";
    assert_eq!(
        get_current_version_from_config(content),
        Some(b"1.2.3".to_vec())
    );
}

#[test]
fn skips_header_without_assignment() {
    let content = b"[bumpversion] tag = true\n[bumpversion]\ncurrent_version = 7.8.9";
    assert_eq!(
        get_current_version_from_config(content),
        Some(b"7.8.9".to_vec())
    );
}

#[test]
fn missing_assignment_yields_none() {
    assert_eq!(get_current_version_from_config(b"[tool]\nversion = 1.2.3"), None);
    assert_eq!(get_current_version_from_config(b""), None);
    assert_eq!(
        get_current_version_from_config(b"[bumpversion]\ncurrent_version = x"),
        None
    );
}

#[test]
fn reads_file_sections_in_order() {
    let content = b"[bumpversion]\ncurrent_version = 1.2.3\n[bumpversion:file:Cargo.toml]\n[bumpversion:file:README.md]\n";
    let files = read_files_from_config(content);
    assert_eq!(files, vec![b"Cargo.toml".to_vec(), b"README.md".to_vec()]);
}

#[test]
fn repeated_file_sections_are_listed_once() {
    let content =
        b"[bumpversion:file:Cargo.toml]\n[bumpversion:file:README.md]\n[bumpversion:file:Cargo.toml]\n";
    let files = read_files_from_config(content);
    assert_eq!(files, vec![b"Cargo.toml".to_vec(), b"README.md".to_vec()]);
}

#[test]
fn file_sections_tolerate_crlf_and_spaces() {
    let content = b"[bumpversion:file: src/lib.rs ]\r\n[bumpversion:file:a.txt]\r\n";
    let files = read_files_from_config(content);
    assert_eq!(files, vec![b"src/lib.rs".to_vec(), b"a.txt".to_vec()]);
}

#[test]
fn unterminated_file_section_runs_to_end_of_line() {
    let files = read_files_from_config(b"[bumpversion:file:notes.txt");
    assert_eq!(files, vec![b"notes.txt".to_vec()]);
}

#[test]
fn no_file_sections_yields_empty_list() {
    let files = read_files_from_config(b"[bumpversion]\ncurrent_version = 1.2.3\n");
    assert_eq!(files, Vec::<Vec<u8>>::new());
}
