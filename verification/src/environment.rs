//! The setup of the platform environment: a configuration that is put
//! together between a start and a finish, each of which happens once.

use vstd::prelude::*;

verus! {

broadcast use vstd::std_specs::vec::group_vec_axioms;

/// How far the setup of the environment has come.
#[derive(Debug, Clone, Copy, PartialEq, Eq, Structural)]
pub enum EnvInitState {
    /// The setup has not started.
    Uninitialized,
    /// The setup has started and takes options.
    InProcess,
    /// The setup is finished; the configuration can be read.
    Finished,
}

impl Default for EnvInitState {
    fn default() -> (r: Self)
        ensures
            r == EnvInitState::Uninitialized,
    {
        EnvInitState::Uninitialized
    }
}

/// Mathematical model of the choice of a directory for settings.
pub ghost enum ConfigDirView {
    Platform,
    Path(Seq<char>),
    Disabled,
}

/// Where the settings are kept.
#[derive(Debug)]
pub enum ConfigDir {
    /// In the directory that the platform provides for it.
    Platform,
    /// In the directory at this path, which is made if it does not exist.
    Path(String),
    /// Nowhere: no directory is read or made.
    Disabled,
}

impl View for ConfigDir {
    type V = ConfigDirView;

    open spec fn view(&self) -> ConfigDirView {
        match self {
            ConfigDir::Platform => ConfigDirView::Platform,
            ConfigDir::Path(p) => ConfigDirView::Path(p@),
            ConfigDir::Disabled => ConfigDirView::Disabled,
        }
    }
}

/// The models of a list of paths.
pub open spec fn paths_view(v: Seq<String>) -> Seq<Seq<char>> {
    Seq::new(v.len(), |i: int| v[i]@)
}

/// Mathematical model of the options gathered so far.
pub ghost struct EnvBuilderView {
    pub working_dir: Option<Seq<char>>,
    pub config_dir: ConfigDirView,
    pub include_paths: Seq<Seq<char>>,
}

/// The options gathered so far.
#[derive(Debug)]
pub struct EnvBuilder {
    working_dir: Option<String>,
    config_dir: ConfigDir,
    include_paths: Vec<String>,
}

impl View for EnvBuilder {
    type V = EnvBuilderView;

    closed spec fn view(&self) -> EnvBuilderView {
        EnvBuilderView {
            working_dir: match self.working_dir {
                Some(p) => Some(p@),
                None => None,
            },
            config_dir: self.config_dir@,
            include_paths: paths_view(self.include_paths@),
        }
    }
}

/// The options at the start: no working directory, the platform's directory
/// for settings, no further search root.
pub open spec fn initial_options() -> EnvBuilderView {
    EnvBuilderView {
        working_dir: None,
        config_dir: ConfigDirView::Platform,
        include_paths: Seq::empty(),
    }
}

impl EnvBuilder {
    /// The options at the start.
    pub fn new() -> (r: Self)
        ensures
            r@ == initial_options(),
    {
        let r = EnvBuilder {
            working_dir: None,
            config_dir: ConfigDir::Platform,
            include_paths: Vec::new(),
        };
        assert(r@.include_paths =~= Seq::empty());
        r
    }

    /// Sets the directory from which relative module references resolve;
    /// `None` for no such directory.
    pub fn set_working_dir(self, path: Option<String>) -> (r: Self)
        ensures
            r@ == (EnvBuilderView {
                working_dir: match path {
                    Some(p) => Some(p@),
                    None => None,
                },
                ..self@
            }),
    {
        EnvBuilder {
            working_dir: path,
            config_dir: self.config_dir,
            include_paths: self.include_paths,
        }
    }

    /// Sets the directory in which the settings are kept.
    pub fn set_config_dir(self, path: String) -> (r: Self)
        ensures
            r@ == (EnvBuilderView { config_dir: ConfigDirView::Path(path@), ..self@ }),
    {
        EnvBuilder {
            working_dir: self.working_dir,
            config_dir: ConfigDir::Path(path),
            include_paths: self.include_paths,
        }
    }

    /// Has no directory for settings read or made.
    pub fn set_no_config_dir(self) -> (r: Self)
        ensures
            r@ == (EnvBuilderView { config_dir: ConfigDirView::Disabled, ..self@ }),
    {
        EnvBuilder {
            working_dir: self.working_dir,
            config_dir: ConfigDir::Disabled,
            include_paths: self.include_paths,
        }
    }

    /// Adds a search root for modules, after those added before.
    pub fn add_include_path(self, path: String) -> (r: Self)
        ensures
            r@ == (EnvBuilderView { include_paths: self@.include_paths.push(path@), ..self@ }),
    {
        let mut include_paths = self.include_paths;
        let ghost before = include_paths@;
        include_paths.push(path);
        assert(paths_view(include_paths@) =~= paths_view(before).push(path@));
        EnvBuilder { working_dir: self.working_dir, config_dir: self.config_dir, include_paths }
    }

    /// The working directory, if one is set.
    pub fn working_dir(&self) -> (r: &Option<String>)
        ensures
            match *r {
                Some(p) => self@.working_dir == Some(p@),
                None => self@.working_dir is None,
            },
    {
        &self.working_dir
    }

    /// Where the settings are kept.
    pub fn config_dir(&self) -> (r: &ConfigDir)
        ensures
            r@ == self@.config_dir,
    {
        &self.config_dir
    }

    /// The search roots in the order in which they are searched: the one
    /// added last comes first.
    pub fn search_order(&self) -> (r: Vec<String>)
        ensures
            paths_view(r@) == self@.include_paths.reverse(),
    {
        let ghost paths = paths_view(self.include_paths@);
        let n = self.include_paths.len();
        let mut r: Vec<String> = Vec::new();
        let mut i: usize = n;
        while i > 0
            invariant
                i <= n,
                n == self.include_paths.len(),
                paths == paths_view(self.include_paths@),
                r.len() == n - i,
                forall|j: int| 0 <= j < r.len() ==> (#[trigger] r@[j])@ == paths[n - 1 - j],
            decreases i,
        {
            i -= 1;
            r.push(self.include_paths[i].clone());
        }
        assert(paths_view(r@) =~= paths.reverse());
        r
    }
}

/// Mathematical model of the setup.
pub ghost struct EnvSetupView {
    pub state: EnvInitState,
    pub builder: Option<EnvBuilderView>,
}

/// The setup of the environment: how far it has come, and the options
/// gathered while it is in process.
#[derive(Debug)]
pub struct EnvSetup {
    state: EnvInitState,
    builder: Option<EnvBuilder>,
}

impl View for EnvSetup {
    type V = EnvSetupView;

    closed spec fn view(&self) -> EnvSetupView {
        EnvSetupView {
            state: self.state,
            builder: match self.builder {
                Some(b) => Some(b@),
                None => None,
            },
        }
    }
}

impl EnvSetup {
    /// A setup that has not started.
    pub fn new() -> (r: Self)
        ensures
            r@ == (EnvSetupView { state: EnvInitState::Uninitialized, builder: None }),
    {
        EnvSetup { state: EnvInitState::Uninitialized, builder: None }
    }

    /// How far the setup has come.
    pub fn state(&self) -> (r: EnvInitState)
        ensures
            r == self@.state,
    {
        self.state
    }

    /// Whether the setup is in the state `expected` and holds options to
    /// take: what `take_current_builder` asks of it.
    pub fn can_take(&self, expected: EnvInitState) -> (r: bool)
        ensures
            r == (self@.state == expected && self@.builder is Some),
    {
        self.state == expected && self.builder.is_some()
    }

    /// Starts the setup. It can be started once: a setup that has started
    /// must not be started again.
    pub fn init_start(&mut self)
        requires
            old(self)@.state == EnvInitState::Uninitialized,
        ensures
            final(self)@ == (EnvSetupView {
                state: EnvInitState::InProcess,
                builder: Some(initial_options()),
            }),
    {
        self.state = EnvInitState::InProcess;
        self.builder = Some(EnvBuilder::new());
    }

    /// Takes the options out of a setup that is in the state `expected`.
    pub fn take_current_builder(&mut self, expected: EnvInitState) -> (r: EnvBuilder)
        requires
            old(self)@.state == expected,
            old(self)@.builder is Some,
        ensures
            Some(r@) == old(self)@.builder,
            final(self)@ == (EnvSetupView { state: expected, builder: None }),
    {
        let mut taken: Option<EnvBuilder> = None;
        core::mem::swap(&mut taken, &mut self.builder);
        taken.unwrap()
    }

    /// Puts the setup in the state `state` with the options `builder`.
    pub fn replace_current_builder(&mut self, state: EnvInitState, builder: Option<EnvBuilder>)
        ensures
            final(self)@ == (EnvSetupView {
                state,
                builder: match builder {
                    Some(b) => Some(b@),
                    None => None,
                },
            }),
    {
        self.state = state;
        self.builder = builder;
    }

    /// Finishes the setup and hands out the options gathered. Only a setup
    /// that is in process can be finished.
    pub fn init_finish(&mut self) -> (r: EnvBuilder)
        requires
            old(self)@.state == EnvInitState::InProcess,
            old(self)@.builder is Some,
        ensures
            Some(r@) == old(self)@.builder,
            final(self)@ == (EnvSetupView { state: EnvInitState::Finished, builder: None }),
    {
        let builder = self.take_current_builder(EnvInitState::InProcess);
        self.replace_current_builder(EnvInitState::Finished, None);
        builder
    }
}

} // verus!
