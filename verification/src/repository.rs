//! The repository around the object store.
//!
//! Nothing here touches the disk. A caller looks at the disk and says what it
//! found; the functions here decide whether that is a repository, and say
//! what has to be created for a new one.

use crate::text::str_equals;
use std::path::PathBuf;
use vstd::prelude::*;
use vstd::string::*;

verus! {

/// A path of the standard library. Its content is opaque here.
#[verifier::external_type_specification]
#[verifier::external_body]
pub struct ExPathBuf(PathBuf);

/// Adjoins `name` to `base` with `Path::join` of the standard library.
///
/// Trusted, with nothing claimed of the path returned: how a path is joined
/// depends on the platform.
#[verifier::external_body]
fn join_path(base: &PathBuf, name: &str) -> (path: PathBuf) {
    base.join(name)
}

/// The name of the repository directory in a working tree.
pub const GIT_DIR: &'static str = ".git";

/// The name of the configuration file in the repository directory.
pub const CONFIG_FILE: &'static str = "config";

/// The name of the root of the object store in the repository directory.
pub const OBJECTS_DIR: &'static str = "objects";

/// Why a directory was not opened as a repository, or no repository was
/// created in it.
#[derive(Clone, Copy, Debug, PartialEq, Eq)]
pub enum RepositoryError {
    /// The working tree does not exist.
    WorktreeMissing,
    /// The working tree holds no repository directory.
    NotARepository,
    /// The repository directory holds no configuration file.
    ConfigMissing,
    /// The configuration does not give the format version a value.
    UnknownFormatVersion,
    /// The format version is not `0`.
    UnsupportedFormatVersion,
    /// The working tree holds a repository directory already.
    AlreadyARepository,
}

impl RepositoryError {
    /// The text that reports this error.
    pub fn message(&self) -> (text: String)
        ensures
            text@ == match *self {
                RepositoryError::WorktreeMissing => "Worktree does not exist"@,
                RepositoryError::NotARepository => "Not a valid git repository"@,
                RepositoryError::ConfigMissing => "Configuration file not found"@,
                RepositoryError::UnknownFormatVersion =>
                    "Could not determine repository format version"@,
                RepositoryError::UnsupportedFormatVersion => "Unsupported format version"@,
                RepositoryError::AlreadyARepository => "Already a git repository"@,
            },
    {
        match self {
            RepositoryError::WorktreeMissing => String::from_str("Worktree does not exist"),
            RepositoryError::NotARepository => String::from_str("Not a valid git repository"),
            RepositoryError::ConfigMissing => String::from_str("Configuration file not found"),
            RepositoryError::UnknownFormatVersion => String::from_str(
                "Could not determine repository format version",
            ),
            RepositoryError::UnsupportedFormatVersion => String::from_str(
                "Unsupported format version",
            ),
            RepositoryError::AlreadyARepository => String::from_str("Already a git repository"),
        }
    }
}

/// One setting of a configuration file: a key in a section, with its value if
/// it has one.
#[derive(Clone, Debug, PartialEq, Eq)]
pub struct ConfigEntry {
    pub section: String,
    pub key: String,
    pub value: Option<String>,
}

/// The mathematical content of a [`ConfigEntry`].
pub struct ConfigEntryModel {
    pub section: Seq<char>,
    pub key: Seq<char>,
    pub value: Option<Seq<char>>,
}

impl View for ConfigEntry {
    type V = ConfigEntryModel;

    open spec fn view(&self) -> ConfigEntryModel {
        ConfigEntryModel {
            section: self.section@,
            key: self.key@,
            value: match self.value {
                Some(text) => Some(text@),
                None => None,
            },
        }
    }
}

/// The settings of a configuration, as a sequence of their contents.
pub open spec fn config_model(conf: Seq<ConfigEntry>) -> Seq<ConfigEntryModel> {
    conf.map_values(|entry: ConfigEntry| entry@)
}

/// What the first `upto` settings say of `key` in `section`: `None` if none of
/// them is that setting, else the value of the first that is.
pub open spec fn lookup(
    conf: Seq<ConfigEntryModel>,
    upto: int,
    section: Seq<char>,
    key: Seq<char>,
) -> Option<Option<Seq<char>>>
    decreases upto,
{
    if upto <= 0 {
        None
    } else {
        match lookup(conf, upto - 1, section, key) {
            Some(value) => Some(value),
            None => if conf[upto - 1].section == section && conf[upto - 1].key == key {
                Some(conf[upto - 1].value)
            } else {
                None
            },
        }
    }
}

/// The format version that a configuration declares: the value of
/// `repositoryformatversion` in section `core`, if the setting is there and has
/// a value.
pub open spec fn format_version(conf: Seq<ConfigEntryModel>) -> Option<Seq<char>> {
    match lookup(conf, conf.len() as int, "core"@, "repositoryformatversion"@) {
        Some(Some(version)) => Some(version),
        _ => None,
    }
}

/// What was found on disk where a repository is expected.
#[derive(Clone, Copy, Debug, PartialEq, Eq)]
pub struct RepositoryFiles {
    /// The working tree exists.
    pub worktree: bool,
    /// The repository directory exists.
    pub gitdir: bool,
    /// The configuration file exists.
    pub config: bool,
}

/// Whether what was found is a repository that can be opened, and if not, why.
pub open spec fn check_repository(
    found: RepositoryFiles,
    conf: Seq<ConfigEntryModel>,
) -> Result<(), RepositoryError> {
    if !found.worktree {
        Err(RepositoryError::WorktreeMissing)
    } else if !found.gitdir {
        Err(RepositoryError::NotARepository)
    } else if !found.config {
        Err(RepositoryError::ConfigMissing)
    } else {
        match format_version(conf) {
            None => Err(RepositoryError::UnknownFormatVersion),
            Some(version) => if version == "0"@ {
                Ok(())
            } else {
                Err(RepositoryError::UnsupportedFormatVersion)
            },
        }
    }
}

/// One thing to do when a repository is created. Names are relative to the
/// repository directory, with `/` between their parts.
#[derive(Clone, Debug, PartialEq, Eq)]
pub enum InitStep {
    /// Create the working tree.
    CreateWorktree,
    /// Create the repository directory itself.
    CreateGitDir,
    /// Create a directory in the repository directory.
    CreateDir { name: String },
    /// Write a file in the repository directory.
    WriteFile { name: String, content: String },
    /// Write the configuration file, [`CONFIG_FILE`], with these settings.
    WriteConfig { settings: Vec<ConfigEntry> },
}

/// The mathematical content of an [`InitStep`].
pub enum InitStepModel {
    CreateWorktree,
    CreateGitDir,
    CreateDir { name: Seq<char> },
    WriteFile { name: Seq<char>, content: Seq<char> },
    WriteConfig { settings: Seq<ConfigEntryModel> },
}

impl View for InitStep {
    type V = InitStepModel;

    open spec fn view(&self) -> InitStepModel {
        match *self {
            InitStep::CreateWorktree => InitStepModel::CreateWorktree,
            InitStep::CreateGitDir => InitStepModel::CreateGitDir,
            InitStep::CreateDir { name } => InitStepModel::CreateDir { name: name@ },
            InitStep::WriteFile { name, content } => InitStepModel::WriteFile {
                name: name@,
                content: content@,
            },
            InitStep::WriteConfig { settings } => InitStepModel::WriteConfig {
                settings: config_model(settings@),
            },
        }
    }
}

/// The configuration of a new repository.
pub open spec fn initial_config() -> Seq<ConfigEntryModel> {
    seq![
        ConfigEntryModel {
            section: "core"@,
            key: "repositoryformatversion"@,
            value: Some("0"@),
        },
        ConfigEntryModel { section: "core"@, key: "filemode"@, value: Some("false"@) },
        ConfigEntryModel { section: "core"@, key: "bare"@, value: Some("false"@) },
    ]
}

/// What has to be done, in this order, to create a repository in a working
/// tree that does or does not exist yet.
pub open spec fn init_plan(worktree_exists: bool) -> Seq<InitStepModel> {
    let first = if worktree_exists {
        Seq::<InitStepModel>::empty()
    } else {
        seq![InitStepModel::CreateWorktree]
    };
    first + seq![
        InitStepModel::CreateGitDir,
        InitStepModel::CreateDir { name: OBJECTS_DIR@ },
        InitStepModel::CreateDir { name: "refs"@ },
        InitStepModel::CreateDir { name: "refs/heads"@ },
        InitStepModel::CreateDir { name: "refs/tags"@ },
        InitStepModel::WriteFile { name: "HEAD"@, content: "ref: refs/heads/master\n"@ },
        InitStepModel::WriteConfig { settings: initial_config() },
    ]
}

/// A repository: a working tree, the repository directory in it, and the
/// repository's configuration.
pub struct GitRepository {
    pub worktree: PathBuf,
    gitdir: PathBuf,
    conf: Vec<ConfigEntry>,
}

/// Makes one setting.
fn setting(section: &str, key: &str, value: &str) -> (entry: ConfigEntry)
    ensures
        entry@ == (ConfigEntryModel { section: section@, key: key@, value: Some(value@) }),
{
    ConfigEntry {
        section: String::from_str(section),
        key: String::from_str(key),
        value: Some(String::from_str(value)),
    }
}

impl GitRepository {
    /// The working tree of the repository.
    pub closed spec fn root(self) -> PathBuf {
        self.worktree
    }

    /// The settings of the repository.
    pub closed spec fn settings(self) -> Seq<ConfigEntryModel> {
        config_model(self.conf@)
    }

    /// The repository directory.
    pub closed spec fn gitdir_path(self) -> PathBuf {
        self.gitdir
    }

    /// The repository of a working tree, without any setting yet. Its
    /// directory is [`GIT_DIR`] in the working tree.
    pub fn new(worktree: PathBuf) -> (repo: GitRepository)
        ensures
            repo.root() == worktree,
            repo.settings() == Seq::<ConfigEntryModel>::empty(),
    {
        let gitdir = join_path(&worktree, GIT_DIR);
        GitRepository::with_gitdir(worktree, gitdir)
    }

    /// The repository of a working tree whose repository directory is
    /// `gitdir`, without any setting yet.
    pub fn with_gitdir(worktree: PathBuf, gitdir: PathBuf) -> (repo: GitRepository)
        ensures
            repo.root() == worktree,
            repo.gitdir_path() == gitdir,
            repo.settings() == Seq::<ConfigEntryModel>::empty(),
    {
        let repo = GitRepository { worktree, gitdir, conf: Vec::new() };
        assert(repo.settings() =~= Seq::<ConfigEntryModel>::empty());
        repo
    }

    /// The repository directory.
    pub fn gitdir(&self) -> (gitdir: &PathBuf)
        ensures
            *gitdir == self.gitdir_path(),
    {
        &self.gitdir
    }

    /// The settings of the repository.
    pub fn conf(&self) -> (conf: &Vec<ConfigEntry>)
        ensures
            config_model(conf@) == self.settings(),
    {
        &self.conf
    }

    /// Looks a setting up.
    ///
    /// Returns `None` if `conf` does not hold `key` in `section`, else the
    /// value of the first such setting.
    pub fn find_setting<'a>(conf: &'a Vec<ConfigEntry>, section: &str, key: &str) -> (found:
        Option<&'a Option<String>>)
        ensures
            match lookup(config_model(conf@), conf@.len() as int, section@, key@) {
                None => found is None,
                Some(None) => found matches Some(value) && *value is None,
                Some(Some(text)) => found matches Some(value) && *value matches Some(held)
                    && held@ == text,
            },
    {
        let ghost model = config_model(conf@);
        let mut i: usize = 0;
        while i < conf.len()
            invariant
                0 <= i <= conf@.len(),
                model == config_model(conf@),
                lookup(model, i as int, section@, key@) is None,
            decreases conf@.len() - i,
        {
            let entry = &conf[i];
            assert(model[i as int] == entry@);
            if str_equals(entry.section.as_str(), section) && str_equals(entry.key.as_str(), key) {
                assert(lookup(model, i + 1, section@, key@) == Some(entry@.value));
                proof {
                    lemma_lookup_is_first(model, i + 1, conf@.len() as int, section@, key@);
                }
                return Some(&entry.value);
            }
            i += 1;
        }
        None
    }

    /// Opens the repository of a working tree.
    ///
    /// `found` says what exists on disk, and `conf` is what the configuration
    /// file holds (empty if there is none). The repository is opened if the
    /// working tree, the repository directory and the configuration file exist
    /// and the configuration declares format version `0`.
    pub fn from_dir(worktree: PathBuf, found: RepositoryFiles, conf: Vec<ConfigEntry>) -> (result:
        Result<GitRepository, RepositoryError>)
        ensures
            match check_repository(found, config_model(conf@)) {
                Ok(_) => result matches Ok(repo) && repo.root() == worktree && repo.settings()
                    == config_model(conf@),
                Err(error) => result matches Err(e) && e == error,
            },
    {
        if !found.worktree {
            return Err(RepositoryError::WorktreeMissing);
        }
        if !found.gitdir {
            return Err(RepositoryError::NotARepository);
        }
        if !found.config {
            return Err(RepositoryError::ConfigMissing);
        }
        let supported = match GitRepository::find_setting(&conf, "core", "repositoryformatversion") {
            Some(Some(version)) => str_equals(version.as_str(), "0"),
            _ => {
                return Err(RepositoryError::UnknownFormatVersion);
            },
        };
        if !supported {
            return Err(RepositoryError::UnsupportedFormatVersion);
        }
        let gitdir = join_path(&worktree, GIT_DIR);
        Ok(GitRepository { worktree, gitdir, conf })
    }

    /// Plans a new repository.
    ///
    /// `worktree_exists` and `gitdir_exists` say what exists on disk. Returns
    /// what has to be done, in order, or refuses if there is a repository
    /// directory already.
    pub fn create_new_repo(worktree_exists: bool, gitdir_exists: bool) -> (result: Result<
        Vec<InitStep>,
        RepositoryError,
    >)
        ensures
            gitdir_exists ==> result == Err::<Vec<InitStep>, RepositoryError>(
                RepositoryError::AlreadyARepository,
            ),
            !gitdir_exists ==> (result matches Ok(steps) && steps@.map_values(
                |step: InitStep| step@,
            ) == init_plan(worktree_exists)),
    {
        if gitdir_exists {
            return Err(RepositoryError::AlreadyARepository);
        }
        let mut steps: Vec<InitStep> = Vec::new();
        if !worktree_exists {
            steps.push(InitStep::CreateWorktree);
        }
        steps.push(InitStep::CreateGitDir);
        steps.push(InitStep::CreateDir { name: String::from_str(OBJECTS_DIR) });
        steps.push(InitStep::CreateDir { name: String::from_str("refs") });
        steps.push(InitStep::CreateDir { name: String::from_str("refs/heads") });
        steps.push(InitStep::CreateDir { name: String::from_str("refs/tags") });
        steps.push(
            InitStep::WriteFile {
                name: String::from_str("HEAD"),
                content: String::from_str("ref: refs/heads/master\n"),
            },
        );
        let mut settings: Vec<ConfigEntry> = Vec::new();
        settings.push(setting("core", "repositoryformatversion", "0"));
        settings.push(setting("core", "filemode", "false"));
        settings.push(setting("core", "bare", "false"));
        assert(config_model(settings@) =~= initial_config());
        steps.push(InitStep::WriteConfig { settings });
        assert(steps@.map_values(|step: InitStep| step@) =~= init_plan(worktree_exists));
        Ok(steps)
    }
}

/// Once a setting is found among the first settings, looking at more of them
/// finds the same.
pub proof fn lemma_lookup_is_first(
    conf: Seq<ConfigEntryModel>,
    found_at: int,
    upto: int,
    section: Seq<char>,
    key: Seq<char>,
)
    requires
        0 <= found_at <= upto,
        lookup(conf, found_at, section, key) is Some,
    ensures
        lookup(conf, upto, section, key) == lookup(conf, found_at, section, key),
    decreases upto - found_at,
{
    if found_at < upto {
        lemma_lookup_is_first(conf, found_at, upto - 1, section, key);
    }
}

} // verus!
