use git_objects::repository::{
    ConfigEntry, GitRepository, InitStep, RepositoryError, RepositoryFiles, CONFIG_FILE, GIT_DIR,
    OBJECTS_DIR,
};
use std::path::PathBuf;

fn entry(section: &str, key: &str, value: Option<&str>) -> ConfigEntry {
    ConfigEntry {
        section: section.to_string(),
        key: key.to_string(),
        value: value.map(str::to_string),
    }
}

fn all_found() -> RepositoryFiles {
    RepositoryFiles { worktree: true, gitdir: true, config: true }
}

fn version(value: Option<&str>) -> Vec<ConfigEntry> {
    vec![
        entry("core", "bare", Some("false")),
        entry("user", "repositoryformatversion", Some("0")),
        entry("core", "repositoryformatversion", value),
    ]
}

fn open(found: RepositoryFiles, conf: Vec<ConfigEntry>) -> Result<GitRepository, RepositoryError> {
    GitRepository::from_dir(PathBuf::from("work"), found, conf)
}

#[test]
fn layout_names() {
    assert_eq!(GIT_DIR, ".git");
    assert_eq!(CONFIG_FILE, "config");
    assert_eq!(OBJECTS_DIR, "objects");
}

#[test]
fn new_repository_has_its_directory_in_the_worktree() {
    let repo = GitRepository::new(PathBuf::from("work"));
    assert_eq!(repo.worktree, PathBuf::from("work"));
    assert_eq!(repo.gitdir(), &PathBuf::from("work").join(".git"));
    assert!(repo.conf().is_empty());
}

#[test]
fn repository_directory_can_be_given() {
    let repo = GitRepository::with_gitdir(PathBuf::from("work"), PathBuf::from("elsewhere"));
    assert_eq!(repo.worktree, PathBuf::from("work"));
    assert_eq!(repo.gitdir(), &PathBuf::from("elsewhere"));
    assert!(repo.conf().is_empty());
}

#[test]
fn repository_with_version_zero_is_opened() {
    let conf = version(Some("0"));
    let repo = open(all_found(), conf.clone()).unwrap();
    assert_eq!(repo.worktree, PathBuf::from("work"));
    assert_eq!(repo.gitdir(), &PathBuf::from("work").join(".git"));
    assert_eq!(repo.conf(), &conf);
}

#[test]
fn missing_paths_are_reported_in_order() {
    let conf = version(Some("0"));
    let none = RepositoryFiles { worktree: false, gitdir: false, config: false };
    assert_eq!(open(none, conf.clone()).err(), Some(RepositoryError::WorktreeMissing));
    let no_gitdir = RepositoryFiles { worktree: true, gitdir: false, config: false };
    assert_eq!(open(no_gitdir, conf.clone()).err(), Some(RepositoryError::NotARepository));
    let no_config = RepositoryFiles { worktree: true, gitdir: true, config: false };
    assert_eq!(open(no_config, conf).err(), Some(RepositoryError::ConfigMissing));
}

#[test]
fn format_version_must_be_zero() {
    assert_eq!(
        open(all_found(), version(Some("1"))).err(),
        Some(RepositoryError::UnsupportedFormatVersion)
    );
    assert_eq!(
        open(all_found(), version(Some("00"))).err(),
        Some(RepositoryError::UnsupportedFormatVersion)
    );
    assert_eq!(
        open(all_found(), version(Some(""))).err(),
        Some(RepositoryError::UnsupportedFormatVersion)
    );
}

#[test]
fn format_version_must_be_known() {
    assert_eq!(
        open(all_found(), version(None)).err(),
        Some(RepositoryError::UnknownFormatVersion)
    );
    assert_eq!(open(all_found(), Vec::new()).err(), Some(RepositoryError::UnknownFormatVersion));
    let elsewhere = vec![entry("user", "repositoryformatversion", Some("0"))];
    assert_eq!(open(all_found(), elsewhere).err(), Some(RepositoryError::UnknownFormatVersion));
}

#[test]
fn first_setting_of_a_key_counts() {
    let conf = vec![
        entry("core", "repositoryformatversion", Some("0")),
        entry("core", "repositoryformatversion", Some("1")),
    ];
    assert!(open(all_found(), conf.clone()).is_ok());
    assert_eq!(
        GitRepository::find_setting(&conf, "core", "repositoryformatversion"),
        Some(&Some("0".to_string()))
    );
    assert_eq!(GitRepository::find_setting(&conf, "core", "bare"), None);
    assert_eq!(GitRepository::find_setting(&conf, "cor", "repositoryformatversion"), None);
    let valueless = vec![entry("core", "bare", None), entry("core", "bare", Some("true"))];
    assert_eq!(GitRepository::find_setting(&valueless, "core", "bare"), Some(&None));
}

fn expected_plan(worktree_exists: bool) -> Vec<InitStep> {
    let mut steps = Vec::new();
    if !worktree_exists {
        steps.push(InitStep::CreateWorktree);
    }
    steps.push(InitStep::CreateGitDir);
    for name in ["objects", "refs", "refs/heads", "refs/tags"] {
        steps.push(InitStep::CreateDir { name: name.to_string() });
    }
    steps.push(InitStep::WriteFile {
        name: "HEAD".to_string(),
        content: "ref: refs/heads/master\n".to_string(),
    });
    steps.push(InitStep::WriteConfig {
        settings: vec![
            entry("core", "repositoryformatversion", Some("0")),
            entry("core", "filemode", Some("false")),
            entry("core", "bare", Some("false")),
        ],
    });
    steps
}

#[test]
fn new_repository_is_planned_step_by_step() {
    assert_eq!(GitRepository::create_new_repo(true, false), Ok(expected_plan(true)));
    assert_eq!(GitRepository::create_new_repo(false, false), Ok(expected_plan(false)));
}

#[test]
fn existing_repository_is_not_created_again() {
    assert_eq!(
        GitRepository::create_new_repo(true, true),
        Err(RepositoryError::AlreadyARepository)
    );
    assert_eq!(
        GitRepository::create_new_repo(false, true),
        Err(RepositoryError::AlreadyARepository)
    );
}

#[test]
fn planned_configuration_opens_as_a_repository() {
    let steps = GitRepository::create_new_repo(true, false).unwrap();
    let settings = steps
        .into_iter()
        .find_map(|step| match step {
            InitStep::WriteConfig { settings } => Some(settings),
            _ => None,
        })
        .unwrap();
    assert!(open(all_found(), settings).is_ok());
}

#[test]
fn repository_errors_have_their_text() {
    assert_eq!(RepositoryError::WorktreeMissing.message(), "Worktree does not exist");
    assert_eq!(RepositoryError::NotARepository.message(), "Not a valid git repository");
    assert_eq!(RepositoryError::ConfigMissing.message(), "Configuration file not found");
    assert_eq!(
        RepositoryError::UnknownFormatVersion.message(),
        "Could not determine repository format version"
    );
    assert_eq!(RepositoryError::UnsupportedFormatVersion.message(), "Unsupported format version");
    assert_eq!(RepositoryError::AlreadyARepository.message(), "Already a git repository");
}
