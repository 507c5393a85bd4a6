//! The configuration record that the surrounding command-line front end hands
//! to the core: which file to read, which component to bump, how to parse and
//! re-serialize the version, and what to commit.

use vstd::prelude::*;

verus! {

/// Everything one invocation of the tool needs to know.
#[derive(Debug)]
pub struct Cli {
    /// Config file to read most of the variables from.
    pub config_file: String,
    /// Version that needs to be updated, when given explicitly.
    pub current_version: Option<String>,
    /// Part of the version to be bumped.
    pub bump: String,
    /// Regex parsing the version string.
    pub parse: String,
    /// How to format what is parsed back to a version.
    pub serialize: String,
    /// Don't write any files, just pretend.
    pub dry_run: bool,
    /// New version that should be in the files, when given explicitly.
    pub new_version: Option<String>,
    /// Create a commit in version control.
    pub commit: bool,
    /// Create a tag in version control.
    pub tag: bool,
    /// Commit message.
    pub message: String,
    /// Files to change.
    pub files: Vec<String>,
}

impl Default for Cli {
    /// The stock configuration: patch bump of a dotted three-part version,
    /// read from `.bumpversion.toml`, committed but not tagged.
    fn default() -> (r: Cli)
        ensures
            r.config_file@ == ".bumpversion.toml"@,
            r.current_version is None,
            r.bump@ == "patch"@,
            r.parse@ == "(?P<major>\\d+)\\.(?P<minor>\\d+)\\.(?P<patch>\\d+)"@,
            r.serialize@ == "{major}.{minor}.{patch}"@,
            !r.dry_run,
            r.new_version is None,
            r.commit,
            !r.tag,
            r.message@ == "Bump version: {current_version} \u{2192} {new_version}"@,
            r.files@.len() == 0,
    {
        Cli {
            config_file: ".bumpversion.toml".to_owned(),
            current_version: None,
            bump: "patch".to_owned(),
            parse: "(?P<major>\\d+)\\.(?P<minor>\\d+)\\.(?P<patch>\\d+)".to_owned(),
            serialize: "{major}.{minor}.{patch}".to_owned(),
            dry_run: false,
            new_version: None,
            commit: true,
            tag: false,
            message: "Bump version: {current_version} \u{2192} {new_version}".to_owned(),
            files: Vec::new(),
        }
    }
}

} // verus!
