//! The configuration, layer by layer.

use crate::cli::GlobalArgs;
use crate::outside;
use crate::text;
use vstd::prelude::*;

verus! {

/// What can go wrong with the configuration.
#[derive(Debug)]
#[allow(inconsistent_fields)]
pub enum ConfigError {
    /// A file could not be read, for the reason given.
    Read { path: String, reason: String },
    /// A file is not valid TOML, for the reason given.
    Parse { path: String, reason: String },
    /// A file could not be written, for the reason given.
    Write { path: String, reason: String },
    /// No API key was found.
    NoApiKey,
    /// There is no such setting.
    UnknownKey(String),
    /// A setting does not accept a value.
    BadValue { key: String, value: String },
}

/// One layer of configuration. Every field is optional so that a layer can
/// state only what it overrides.
#[derive(Debug)]
pub struct Layer {
    pub model: Option<String>,
    pub endpoint: Option<String>,
    pub api_key_file: Option<String>,
    pub endpoint_file: Option<String>,
    pub context_commits: Option<usize>,
    pub max_diff_bytes: Option<usize>,
    pub max_file_diff_bytes: Option<usize>,
    pub max_tool_calls: Option<u32>,
    pub max_tool_bytes: Option<usize>,
    pub exclude: Option<Vec<String>>,
    pub conventional_commits: Option<bool>,
    pub subject_max_len: Option<usize>,
    pub body: Option<bool>,
    pub candidates: Option<usize>,
    pub show_thinking: Option<bool>,
}

/// What a [`Layer`] says.
pub struct LayerView {
    pub model: Option<Seq<char>>,
    pub endpoint: Option<Seq<char>>,
    pub api_key_file: Option<Seq<char>>,
    pub endpoint_file: Option<Seq<char>>,
    pub context_commits: Option<usize>,
    pub max_diff_bytes: Option<usize>,
    pub max_file_diff_bytes: Option<usize>,
    pub max_tool_calls: Option<u32>,
    pub max_tool_bytes: Option<usize>,
    pub exclude: Option<Seq<Seq<char>>>,
    pub conventional_commits: Option<bool>,
    pub subject_max_len: Option<usize>,
    pub body: Option<bool>,
    pub candidates: Option<usize>,
    pub show_thinking: Option<bool>,
}

impl View for Layer {
    type V = LayerView;

    open spec fn view(&self) -> LayerView {
        LayerView {
            model: text::opt_text(self.model),
            endpoint: text::opt_text(self.endpoint),
            api_key_file: text::opt_text(self.api_key_file),
            endpoint_file: text::opt_text(self.endpoint_file),
            context_commits: self.context_commits,
            max_diff_bytes: self.max_diff_bytes,
            max_file_diff_bytes: self.max_file_diff_bytes,
            max_tool_calls: self.max_tool_calls,
            max_tool_bytes: self.max_tool_bytes,
            exclude: match self.exclude {
                Some(list) => Some(text::texts(list@)),
                None => None,
            },
            conventional_commits: self.conventional_commits,
            subject_max_len: self.subject_max_len,
            body: self.body,
            candidates: self.candidates,
            show_thinking: self.show_thinking,
        }
    }
}

/// A layer that says nothing.
pub open spec fn empty_layer() -> LayerView {
    LayerView {
        model: None,
        endpoint: None,
        api_key_file: None,
        endpoint_file: None,
        context_commits: None,
        max_diff_bytes: None,
        max_file_diff_bytes: None,
        max_tool_calls: None,
        max_tool_bytes: None,
        exclude: None,
        conventional_commits: None,
        subject_max_len: None,
        body: None,
        candidates: None,
        show_thinking: None,
    }
}

/// What a field says under a layer that may override it.
pub open spec fn over<T>(base: Option<T>, top: Option<T>) -> Option<T> {
    match top {
        Some(value) => Some(value),
        None => base,
    }
}

/// Two layers in one: each field of the second that says something overrides
/// that of the first.
pub open spec fn merged(base: LayerView, top: LayerView) -> LayerView {
    LayerView {
        model: over(base.model, top.model),
        endpoint: over(base.endpoint, top.endpoint),
        api_key_file: over(base.api_key_file, top.api_key_file),
        endpoint_file: over(base.endpoint_file, top.endpoint_file),
        context_commits: over(base.context_commits, top.context_commits),
        max_diff_bytes: over(base.max_diff_bytes, top.max_diff_bytes),
        max_file_diff_bytes: over(base.max_file_diff_bytes, top.max_file_diff_bytes),
        max_tool_calls: over(base.max_tool_calls, top.max_tool_calls),
        max_tool_bytes: over(base.max_tool_bytes, top.max_tool_bytes),
        exclude: over(base.exclude, top.exclude),
        conventional_commits: over(base.conventional_commits, top.conventional_commits),
        subject_max_len: over(base.subject_max_len, top.subject_max_len),
        body: over(base.body, top.body),
        candidates: over(base.candidates, top.candidates),
        show_thinking: over(base.show_thinking, top.show_thinking),
    }
}

impl Default for Layer {
    /// A layer that says nothing.
    fn default() -> (r: Self)
        ensures
            r@ == empty_layer(),
    {
        Layer {
            model: None,
            endpoint: None,
            api_key_file: None,
            endpoint_file: None,
            context_commits: None,
            max_diff_bytes: None,
            max_file_diff_bytes: None,
            max_tool_calls: None,
            max_tool_bytes: None,
            exclude: None,
            conventional_commits: None,
            subject_max_len: None,
            body: None,
            candidates: None,
            show_thinking: None,
        }
    }
}

/// What came of reading a layer from a file.
#[derive(Debug)]
pub enum LayerFile {
    /// There is no such file.
    Missing,
    /// The file could not be read, for the reason given.
    Unreadable(String),
    /// The file is not a valid layer, for the reason given.
    Invalid(String),
    /// The layer.
    Valid(Layer),
}

/// Takes over a field that the other layer states.
fn take<T>(field: &mut Option<T>, stated: Option<T>)
    ensures
        *final(field) == over(*old(field), stated),
{
    if stated.is_some() {
        *field = stated;
    }
}

impl Layer {
    /// The layer that a file holds. A file that is not there says nothing.
    pub fn read(path: &str, file: LayerFile) -> (r: Result<Option<Layer>, ConfigError>)
        ensures
            match file {
                LayerFile::Missing => r == Ok::<Option<Layer>, ConfigError>(None),
                LayerFile::Valid(layer) => r == Ok::<Option<Layer>, ConfigError>(Some(layer)),
                LayerFile::Unreadable(why) => {
                    &&& r matches Err(ConfigError::Read { path: p, reason })
                    &&& p@ == path@
                    &&& reason == why
                },
                LayerFile::Invalid(why) => {
                    &&& r matches Err(ConfigError::Parse { path: p, reason })
                    &&& p@ == path@
                    &&& reason == why
                },
            },
    {
        match file {
            LayerFile::Missing => Ok(None),
            LayerFile::Valid(layer) => Ok(Some(layer)),
            LayerFile::Unreadable(reason) => Err(
                ConfigError::Read { path: path.to_owned(), reason },
            ),
            LayerFile::Invalid(reason) => Err(ConfigError::Parse { path: path.to_owned(), reason }),
        }
    }

    /// Takes over every field that the other layer states.
    pub fn merge(&mut self, over: Layer)
        ensures
            final(self)@ == merged(old(self)@, over@),
    {
        take(&mut self.model, over.model);
        take(&mut self.endpoint, over.endpoint);
        take(&mut self.api_key_file, over.api_key_file);
        take(&mut self.endpoint_file, over.endpoint_file);
        take(&mut self.context_commits, over.context_commits);
        take(&mut self.max_diff_bytes, over.max_diff_bytes);
        take(&mut self.max_file_diff_bytes, over.max_file_diff_bytes);
        take(&mut self.max_tool_calls, over.max_tool_calls);
        take(&mut self.max_tool_bytes, over.max_tool_bytes);
        take(&mut self.exclude, over.exclude);
        take(&mut self.conventional_commits, over.conventional_commits);
        take(&mut self.subject_max_len, over.subject_max_len);
        take(&mut self.body, over.body);
        take(&mut self.candidates, over.candidates);
        take(&mut self.show_thinking, over.show_thinking);
    }
}

/// The settings of a run.
#[derive(Debug)]
pub struct Config {
    pub model: String,
    pub endpoint: String,
    pub api_key_file: Option<String>,
    pub endpoint_file: Option<String>,
    pub context_commits: usize,
    pub max_diff_bytes: usize,
    pub max_file_diff_bytes: usize,
    pub max_tool_calls: u32,
    pub max_tool_bytes: usize,
    pub exclude: Vec<String>,
    pub conventional_commits: bool,
    pub subject_max_len: usize,
    pub body: bool,
    pub candidates: usize,
    pub show_thinking: bool,
}

/// What a [`Config`] says.
pub struct ConfigView {
    pub model: Seq<char>,
    pub endpoint: Seq<char>,
    pub api_key_file: Option<Seq<char>>,
    pub endpoint_file: Option<Seq<char>>,
    pub context_commits: usize,
    pub max_diff_bytes: usize,
    pub max_file_diff_bytes: usize,
    pub max_tool_calls: u32,
    pub max_tool_bytes: usize,
    pub exclude: Seq<Seq<char>>,
    pub conventional_commits: bool,
    pub subject_max_len: usize,
    pub body: bool,
    pub candidates: usize,
    pub show_thinking: bool,
}

impl View for Config {
    type V = ConfigView;

    open spec fn view(&self) -> ConfigView {
        ConfigView {
            model: self.model@,
            endpoint: self.endpoint@,
            api_key_file: text::opt_text(self.api_key_file),
            endpoint_file: text::opt_text(self.endpoint_file),
            context_commits: self.context_commits,
            max_diff_bytes: self.max_diff_bytes,
            max_file_diff_bytes: self.max_file_diff_bytes,
            max_tool_calls: self.max_tool_calls,
            max_tool_bytes: self.max_tool_bytes,
            exclude: text::texts(self.exclude@),
            conventional_commits: self.conventional_commits,
            subject_max_len: self.subject_max_len,
            body: self.body,
            candidates: self.candidates,
            show_thinking: self.show_thinking,
        }
    }
}

/// The settings that hold where nothing says otherwise.
pub open spec fn default_config() -> ConfigView {
    ConfigView {
        model: "gpt-5.6-luna"@,
        endpoint: "https://api.openai.com/v1"@,
        api_key_file: None,
        endpoint_file: None,
        context_commits: 10,
        max_diff_bytes: 60_000,
        max_file_diff_bytes: 12_000,
        max_tool_calls: 2,
        max_tool_bytes: 24_000,
        exclude: seq![
            "*.lock"@,
            "*.min.js"@,
            "*.min.css"@,
            "*.snap"@,
            "package-lock.json"@,
            "pnpm-lock.yaml"@,
            "yarn.lock"@,
            "Cargo.lock"@,
            "go.sum"@,
            "poetry.lock"@,
            "vendor/**"@,
            "dist/**"@,
        ],
        conventional_commits: false,
        subject_max_len: 72,
        body: true,
        candidates: 1,
        show_thinking: false,
    }
}

impl Default for Config {
    /// The settings that hold where nothing says otherwise.
    fn default() -> (r: Self)
        ensures
            r@ == default_config(),
    {
        let exclude = vec![
            "*.lock".to_owned(),
            "*.min.js".to_owned(),
            "*.min.css".to_owned(),
            "*.snap".to_owned(),
            "package-lock.json".to_owned(),
            "pnpm-lock.yaml".to_owned(),
            "yarn.lock".to_owned(),
            "Cargo.lock".to_owned(),
            "go.sum".to_owned(),
            "poetry.lock".to_owned(),
            "vendor/**".to_owned(),
            "dist/**".to_owned(),
        ];
        assert(text::texts(exclude@) =~= default_config().exclude);
        Config {
            model: "gpt-5.6-luna".to_owned(),
            endpoint: "https://api.openai.com/v1".to_owned(),
            api_key_file: None,
            endpoint_file: None,
            context_commits: 10,
            max_diff_bytes: 60_000,
            max_file_diff_bytes: 12_000,
            max_tool_calls: 2,
            max_tool_bytes: 24_000,
            exclude,
            conventional_commits: false,
            subject_max_len: 72,
            body: true,
            candidates: 1,
            show_thinking: false,
        }
    }
}

// ---------------------------------------------------------------------------
// Where settings come from
// ---------------------------------------------------------------------------

/// The texts of variables that may not be set.
pub open spec fn var_texts(values: Seq<Option<String>>) -> Seq<Option<Seq<char>>> {
    Seq::new(values.len(), |i: int| text::opt_text(values[i]))
}

/// The first value that is set to something other than white space, without the
/// white space around it.
pub open spec fn first_set(values: Seq<Option<Seq<char>>>) -> Option<Seq<char>>
    decreases values.len(),
{
    if values.len() == 0 {
        None
    } else {
        match values[0] {
            Some(value) => if text::blank(value) {
                first_set(values.drop_first())
            } else {
                Some(text::trim(value))
            },
            None => first_set(values.drop_first()),
        }
    }
}

/// The first of these variables that is set to something other than
/// whitespace. Later names are compatibility fallbacks.
pub fn env_any(values: &Vec<Option<String>>) -> (r: Option<String>)
    ensures
        text::opt_text(r) == first_set(var_texts(values@)),
{
    let ghost all = var_texts(values@);
    assert(all.skip(0) =~= all);
    for i in 0..values.len()
        invariant
            all == var_texts(values@),
            first_set(all) == first_set(all.skip(i as int)),
    {
        assert(all.skip(i as int).drop_first() =~= all.skip(i + 1));
        assert(all.skip(i as int)[0] == text::opt_text(values@[i as int]));
        if let Some(value) = &values[i] {
            if !text::is_blank(value.as_str()) {
                return Some(text::trimmed(value.as_str()));
            }
        }
    }
    None
}

/// A path below a directory.
pub open spec fn join_path(base: Seq<char>, below: Seq<char>) -> Seq<char> {
    if base.len() == 0 || base.last() == '/' {
        base + below
    } else {
        base + "/"@ + below
    }
}

/// A path below a directory.
pub fn joined_path(base: &str, below: &str) -> (r: String)
    ensures
        r@ == join_path(base@, below@),
{
    let v = text::chars_of(base);
    let mut out = base.to_owned();
    if v.len() > 0 && v[v.len() - 1] != '/' {
        out.append("/");
    }
    out.append(below);
    out
}

/// The text of a string that may be missing.
pub open spec fn opt_str_text(s: Option<&str>) -> Option<Seq<char>> {
    match s {
        Some(s) => Some(s@),
        None => None,
    }
}

/// Where the user's own config lives.
pub open spec fn user_file(xdg_config_home: Option<Seq<char>>, home: Option<Seq<char>>) -> Seq<char> {
    let base = match xdg_config_home {
        Some(base) => base,
        None => match home {
            Some(home) => join_path(home, ".config"@),
            None => ".config"@,
        },
    };
    join_path(base, "auto-commit/config.toml"@)
}

/// Where the user's own config lives, and where `config set` writes: below
/// `XDG_CONFIG_HOME` where that is set, else below `.config` in `HOME`, else
/// below `.config` here.
pub fn user_path(xdg_config_home: Option<&str>, home: Option<&str>) -> (r: String)
    ensures
        r@ == join_path(
            match (xdg_config_home, home) {
                (Some(base), _) => base@,
                (None, Some(home)) => join_path(home@, ".config"@),
                (None, None) => ".config"@,
            },
            "auto-commit/config.toml"@,
        ),
        r@ == user_file(opt_str_text(xdg_config_home), opt_str_text(home)),
{
    let base = match xdg_config_home {
        Some(base) => base.to_owned(),
        None => match home {
            Some(home) => joined_path(home, ".config"),
            None => ".config".to_owned(),
        },
    };
    joined_path(base.as_str(), "auto-commit/config.toml")
}

/// The variables that override settings, as far as they are set.
#[derive(Debug)]
pub struct Environment {
    /// `AUTO_COMMIT_ENDPOINT`
    pub endpoint: Option<String>,
    /// `OPENAI_BASE_URL`
    pub openai_base_url: Option<String>,
    /// `AUTO_COMMIT_MODEL`
    pub model: Option<String>,
}

/// What a layer says, or nothing where there is none.
pub open spec fn layer_or_empty(layer: Option<Layer>) -> LayerView {
    match layer {
        Some(layer) => layer@,
        None => empty_layer(),
    }
}

/// The endpoint that the command line or the environment names.
pub open spec fn named_endpoint(env: Environment, args: GlobalArgs) -> Option<Seq<char>> {
    match args.endpoint {
        Some(endpoint) => Some(endpoint@),
        None => first_set(
            seq![text::opt_text(env.endpoint), text::opt_text(env.openai_base_url)],
        ),
    }
}

/// `Some(true)` for a flag that is given.
pub open spec fn flag(given: bool) -> Option<bool> {
    if given {
        Some(true)
    } else {
        None
    }
}

/// What the environment says of the model.
pub open spec fn env_layer(env: Environment) -> LayerView {
    LayerView { model: first_set(seq![text::opt_text(env.model)]), ..empty_layer() }
}

/// What the command line says.
pub open spec fn args_layer(env: Environment, args: GlobalArgs) -> LayerView {
    LayerView {
        model: text::opt_text(args.model),
        endpoint: named_endpoint(env, args),
        context_commits: args.context_commits,
        max_tool_calls: args.max_tool_calls,
        candidates: args.candidates,
        show_thinking: flag(args.show_thinking),
        conventional_commits: flag(args.conventional),
        ..empty_layer()
    }
}

/// All layers in one: the system file, the user file, the repository file, the
/// environment, the flags.
pub open spec fn all_layers(
    system: LayerView,
    user: LayerView,
    repository: LayerView,
    env: Environment,
    args: GlobalArgs,
) -> LayerView {
    let layer = merged(
        merged(merged(merged(system, user), repository), env_layer(env)),
        args_layer(env, args),
    );
    if named_endpoint(env, args) is Some {
        LayerView { endpoint_file: None, ..layer }
    } else {
        layer
    }
}

/// What a field says, or what holds where it says nothing.
pub open spec fn or<T>(value: Option<T>, default: T) -> T {
    match value {
        Some(value) => value,
        None => default,
    }
}

/// The settings that a layer makes, with the defaults for what it leaves open.
pub open spec fn resolved(layer: LayerView) -> ConfigView {
    let d = default_config();
    ConfigView {
        model: or(layer.model, d.model),
        endpoint: or(layer.endpoint, d.endpoint),
        api_key_file: layer.api_key_file,
        endpoint_file: layer.endpoint_file,
        context_commits: or(layer.context_commits, d.context_commits),
        max_diff_bytes: or(layer.max_diff_bytes, d.max_diff_bytes),
        max_file_diff_bytes: or(layer.max_file_diff_bytes, d.max_file_diff_bytes),
        max_tool_calls: or(layer.max_tool_calls, d.max_tool_calls),
        max_tool_bytes: or(layer.max_tool_bytes, d.max_tool_bytes),
        exclude: or(layer.exclude, d.exclude),
        conventional_commits: or(layer.conventional_commits, d.conventional_commits),
        subject_max_len: or(layer.subject_max_len, d.subject_max_len),
        body: or(layer.body, d.body),
        candidates: or(layer.candidates, d.candidates),
        show_thinking: or(layer.show_thinking, d.show_thinking),
    }
}

impl Config {
    /// System file, then user file, then repository file, then environment,
    /// then flags. Each layer overrides only the fields it sets. The first file
    /// that could not be read ends it.
    pub fn load(
        system: Result<Option<Layer>, ConfigError>,
        user: Result<Option<Layer>, ConfigError>,
        repository: Result<Option<Layer>, ConfigError>,
        env: &Environment,
        args: &GlobalArgs,
    ) -> (r: Result<Config, ConfigError>)
        ensures
            match (system, user, repository) {
                (Err(error), _, _) => r == Err::<Config, ConfigError>(error),
                (Ok(_), Err(error), _) => r == Err::<Config, ConfigError>(error),
                (Ok(_), Ok(_), Err(error)) => r == Err::<Config, ConfigError>(error),
                (Ok(system), Ok(user), Ok(repository)) => {
                    &&& r matches Ok(config)
                    &&& config@ == resolved(
                        all_layers(
                            layer_or_empty(system),
                            layer_or_empty(user),
                            layer_or_empty(repository),
                            *env,
                            *args,
                        ),
                    )
                },
            },
    {
        let mut layer: Layer = Default::default();
        match system {
            Ok(found) => {
                if let Some(found) = found {
                    layer.merge(found);
                }
            },
            Err(error) => {
                return Err(error);
            },
        }
        match user {
            Ok(found) => {
                if let Some(found) = found {
                    layer.merge(found);
                }
            },
            Err(error) => {
                return Err(error);
            },
        }
        match repository {
            Ok(found) => {
                if let Some(found) = found {
                    layer.merge(found);
                }
            },
            Err(error) => {
                return Err(error);
            },
        }
        // The OPENAI_ names are read as a fallback because that is what people
        // already have exported, not because this tool is tied to that API.
        let endpoint = match &args.endpoint {
            Some(endpoint) => Some(endpoint.clone()),
            None => {
                let values = vec![env.endpoint.clone(), env.openai_base_url.clone()];
                assert(var_texts(values@) =~= seq![
                    text::opt_text(env.endpoint),
                    text::opt_text(env.openai_base_url),
                ]);
                env_any(&values)
            },
        };
        let named = endpoint.is_some();
        let values = vec![env.model.clone()];
        assert(var_texts(values@) =~= seq![text::opt_text(env.model)]);
        let mut from_env: Layer = Default::default();
        from_env.model = env_any(&values);
        layer.merge(from_env);
        let mut from_args: Layer = Default::default();
        from_args.model = args.model.clone();
        from_args.endpoint = endpoint;
        from_args.context_commits = args.context_commits;
        from_args.max_tool_calls = args.max_tool_calls;
        from_args.candidates = args.candidates;
        if args.show_thinking {
            from_args.show_thinking = Some(true);
        }
        if args.conventional {
            from_args.conventional_commits = Some(true);
        }
        layer.merge(from_args);
        // An endpoint named on the command line or in the environment replaces
        // a configured endpoint_file, which would otherwise shadow it.
        if named {
            layer.endpoint_file = None;
        }
        let defaults: Config = Default::default();
        Ok(
            Config {
                model: layer.model.unwrap_or(defaults.model),
                endpoint: layer.endpoint.unwrap_or(defaults.endpoint),
                api_key_file: layer.api_key_file,
                endpoint_file: layer.endpoint_file,
                context_commits: layer.context_commits.unwrap_or(defaults.context_commits),
                max_diff_bytes: layer.max_diff_bytes.unwrap_or(defaults.max_diff_bytes),
                max_file_diff_bytes: layer.max_file_diff_bytes.unwrap_or(
                    defaults.max_file_diff_bytes,
                ),
                max_tool_calls: layer.max_tool_calls.unwrap_or(defaults.max_tool_calls),
                max_tool_bytes: layer.max_tool_bytes.unwrap_or(defaults.max_tool_bytes),
                exclude: layer.exclude.unwrap_or(defaults.exclude),
                conventional_commits: layer.conventional_commits.unwrap_or(
                    defaults.conventional_commits,
                ),
                subject_max_len: layer.subject_max_len.unwrap_or(defaults.subject_max_len),
                body: layer.body.unwrap_or(defaults.body),
                candidates: layer.candidates.unwrap_or(defaults.candidates),
                show_thinking: layer.show_thinking.unwrap_or(defaults.show_thinking),
            },
        )
    }
}

/// A value of a setting, of the type that its key expects.
#[derive(Debug)]
pub enum Setting {
    Text(String),
    Flag(bool),
    Number(i64),
    List(Vec<String>),
}

/// What a [`Setting`] says. A value that no setting has stands for itself, as its
/// text: a flat one, such as a float or a date, or another one, such as a table.
pub enum SettingView {
    Text(Seq<char>),
    Flag(bool),
    Number(int),
    List(Seq<Seq<char>>),
    Flat(Seq<char>),
    Other(Seq<char>),
}

impl View for Setting {
    type V = SettingView;

    open spec fn view(&self) -> SettingView {
        match self {
            Setting::Text(value) => SettingView::Text(value@),
            Setting::Flag(value) => SettingView::Flag(*value),
            Setting::Number(value) => SettingView::Number(*value as int),
            Setting::List(items) => SettingView::List(text::texts(items@)),
        }
    }
}

// ---------------------------------------------------------------------------
// Secrets
// ---------------------------------------------------------------------------

/// Reads a value that was kept out of every config file on purpose: what the
/// file holds, without the white space around it. The content is returned to
/// the caller and never rendered anywhere else.
pub fn read_secret(path: &str, contents: Result<String, String>) -> (r: Result<String, ConfigError>)
    ensures
        match contents {
            Ok(contents) => r matches Ok(secret) && secret@ == text::trim(contents@),
            Err(why) => {
                &&& r matches Err(ConfigError::Read { path: p, reason })
                &&& p@ == path@
                &&& reason == why
            },
        },
{
    match contents {
        Ok(contents) => Ok(text::trimmed(contents.as_str())),
        Err(reason) => Err(ConfigError::Read { path: path.to_owned(), reason }),
    }
}

impl Config {
    /// The key itself, from the file the config points at or from the
    /// environment. Never logged and never put in an event.
    ///
    /// `contents` is what that file holds, or why it cannot be read; `vars` are
    /// the variables that hold a key, as far as they are set. Where the config
    /// names no file, `contents` is not looked at; where it does, `vars` are
    /// not.
    pub fn api_key(&self, contents: Result<String, String>, vars: &Vec<Option<String>>) -> (r: Result<
        String,
        ConfigError,
    >)
        ensures
            match (self@.api_key_file, contents) {
                (Some(_), Ok(contents)) => r matches Ok(key) && key@ == text::trim(contents@),
                (Some(path), Err(why)) => {
                    &&& r matches Err(ConfigError::Read { path: p, reason })
                    &&& p@ == path
                    &&& reason == why
                },
                (None, _) => match first_set(var_texts(vars@)) {
                    Some(key) => r matches Ok(k) && k@ == key,
                    None => r matches Err(ConfigError::NoApiKey),
                },
            },
    {
        match &self.api_key_file {
            Some(path) => read_secret(path.as_str(), contents),
            None => match env_any(vars) {
                Some(key) => Ok(key),
                None => Err(ConfigError::NoApiKey),
            },
        }
    }

    /// The endpoint can be a secret too. A gateway URL often carries a tenant
    /// or a token in its path, so it gets the same file treatment as the key
    /// and is read at run time rather than written into any config file.
    ///
    /// The field of the same name holds the literal from the config; this
    /// takes what the file holds when one was given instead.
    pub fn endpoint(&self, contents: Result<String, String>) -> (r: Result<String, ConfigError>)
        ensures
            match (self@.endpoint_file, contents) {
                (Some(_), Ok(contents)) => r matches Ok(url) && url@ == text::trim(contents@),
                (Some(path), Err(why)) => {
                    &&& r matches Err(ConfigError::Read { path: p, reason })
                    &&& p@ == path
                    &&& reason == why
                },
                (None, _) => r matches Ok(url) && url@ == self@.endpoint,
            },
    {
        match &self.endpoint_file {
            Some(path) => read_secret(path.as_str(), contents),
            None => Ok(self.endpoint.clone()),
        }
    }
}

// ---------------------------------------------------------------------------
// One setting at a time
// ---------------------------------------------------------------------------

/// The names of the settings.
pub open spec fn setting_keys() -> Seq<Seq<char>> {
    seq![
        "model"@,
        "endpoint"@,
        "api_key_file"@,
        "endpoint_file"@,
        "context_commits"@,
        "max_diff_bytes"@,
        "max_file_diff_bytes"@,
        "max_tool_calls"@,
        "max_tool_bytes"@,
        "exclude"@,
        "conventional_commits"@,
        "subject_max_len"@,
        "body"@,
        "candidates"@,
        "show_thinking"@,
    ]
}

/// A truth value as text.
pub open spec fn flag_text(b: bool) -> Seq<char> {
    if b {
        "true"@
    } else {
        "false"@
    }
}

fn show_flag(b: bool) -> (r: String)
    ensures
        r@ == flag_text(b),
{
    if b {
        "true".to_owned()
    } else {
        "false".to_owned()
    }
}

/// A path that may not be set, as text.
pub open spec fn path_text(path: Option<Seq<char>>) -> Seq<char> {
    match path {
        Some(path) => path,
        None => ""@,
    }
}

/// A path that may not be set, as text.
pub fn show_path(path: Option<&str>) -> (r: String)
    ensures
        r@ == match path {
            Some(path) => path@,
            None => ""@,
        },
{
    match path {
        Some(path) => path.to_owned(),
        None => "".to_owned(),
    }
}

/// What `config get` reports for a key. A value that came from a file is
/// reported as the path it came from.
pub open spec fn reported(config: ConfigView, key: Seq<char>) -> Option<Seq<char>> {
    if key == "model"@ {
        Some(config.model)
    } else if key == "endpoint"@ {
        match config.endpoint_file {
            Some(path) => Some("<read from "@ + path + ">"@),
            None => Some(config.endpoint),
        }
    } else if key == "endpoint_file"@ {
        Some(path_text(config.endpoint_file))
    } else if key == "api_key_file"@ {
        Some(path_text(config.api_key_file))
    } else if key == "context_commits"@ {
        Some(text::decimal(config.context_commits as nat))
    } else if key == "max_diff_bytes"@ {
        Some(text::decimal(config.max_diff_bytes as nat))
    } else if key == "max_file_diff_bytes"@ {
        Some(text::decimal(config.max_file_diff_bytes as nat))
    } else if key == "max_tool_calls"@ {
        Some(text::decimal(config.max_tool_calls as nat))
    } else if key == "max_tool_bytes"@ {
        Some(text::decimal(config.max_tool_bytes as nat))
    } else if key == "exclude"@ {
        Some(text::join(config.exclude, ", "@))
    } else if key == "conventional_commits"@ {
        Some(flag_text(config.conventional_commits))
    } else if key == "subject_max_len"@ {
        Some(text::decimal(config.subject_max_len as nat))
    } else if key == "body"@ {
        Some(flag_text(config.body))
    } else if key == "candidates"@ {
        Some(text::decimal(config.candidates as nat))
    } else if key == "show_thinking"@ {
        Some(flag_text(config.show_thinking))
    } else {
        None
    }
}

impl Config {
    /// The names of the settings.
    pub fn keys() -> (r: Vec<String>)
        ensures
            text::texts(r@) == setting_keys(),
    {
        let keys = vec![
            "model".to_owned(),
            "endpoint".to_owned(),
            "api_key_file".to_owned(),
            "endpoint_file".to_owned(),
            "context_commits".to_owned(),
            "max_diff_bytes".to_owned(),
            "max_file_diff_bytes".to_owned(),
            "max_tool_calls".to_owned(),
            "max_tool_bytes".to_owned(),
            "exclude".to_owned(),
            "conventional_commits".to_owned(),
            "subject_max_len".to_owned(),
            "body".to_owned(),
            "candidates".to_owned(),
            "show_thinking".to_owned(),
        ];
        assert(text::texts(keys@) =~= setting_keys());
        keys
    }

    /// What `config get` reports for a key. It must never be a way to read a
    /// secret out.
    pub fn get(&self, key: &str) -> (r: Result<String, ConfigError>)
        ensures
            match reported(self@, key@) {
                Some(value) => r matches Ok(v) && v@ == value,
                None => r matches Err(ConfigError::UnknownKey(k)) && k@ == key@,
            },
    {
        if text::same(key, "model") {
            Ok(self.model.clone())
        } else if text::same(key, "endpoint") {
            match &self.endpoint_file {
                Some(path) => {
                    let mut out = "<read from ".to_owned();
                    out.append(path.as_str());
                    out.append(">");
                    Ok(out)
                },
                None => Ok(self.endpoint.clone()),
            }
        } else if text::same(key, "endpoint_file") {
            Ok(
                match &self.endpoint_file {
                    Some(path) => show_path(Some(path.as_str())),
                    None => show_path(None),
                },
            )
        } else if text::same(key, "api_key_file") {
            Ok(
                match &self.api_key_file {
                    Some(path) => show_path(Some(path.as_str())),
                    None => show_path(None),
                },
            )
        } else if text::same(key, "context_commits") {
            Ok(text::number(self.context_commits as u128))
        } else if text::same(key, "max_diff_bytes") {
            Ok(text::number(self.max_diff_bytes as u128))
        } else if text::same(key, "max_file_diff_bytes") {
            Ok(text::number(self.max_file_diff_bytes as u128))
        } else if text::same(key, "max_tool_calls") {
            Ok(text::number(self.max_tool_calls as u128))
        } else if text::same(key, "max_tool_bytes") {
            Ok(text::number(self.max_tool_bytes as u128))
        } else if text::same(key, "exclude") {
            Ok(text::joined(self.exclude.as_slice(), ", "))
        } else if text::same(key, "conventional_commits") {
            Ok(show_flag(self.conventional_commits))
        } else if text::same(key, "subject_max_len") {
            Ok(text::number(self.subject_max_len as u128))
        } else if text::same(key, "body") {
            Ok(show_flag(self.body))
        } else if text::same(key, "candidates") {
            Ok(text::number(self.candidates as u128))
        } else if text::same(key, "show_thinking") {
            Ok(show_flag(self.show_thinking))
        } else {
            Err(ConfigError::UnknownKey(key.to_owned()))
        }
    }
}

/// The parts of a list, as it is written on the command line.
pub open spec fn listed(value: Seq<char>) -> Seq<Seq<char>> {
    let parts = text::split(value, ',');
    Seq::new(parts.len(), |i: int| text::trim(parts[i]))
}

/// A truth value, as it is written on the command line.
pub open spec fn parsed_flag(value: Seq<char>) -> Option<bool> {
    if value == "true"@ {
        Some(true)
    } else if value == "false"@ {
        Some(false)
    } else {
        None
    }
}

/// The value of the type that a key expects which a text stands for, if any.
pub open spec fn parsed_setting(key: Seq<char>, value: Seq<char>) -> Option<SettingView> {
    if key == "model"@ || key == "endpoint"@ || key == "api_key_file"@ || key == "endpoint_file"@ {
        Some(SettingView::Text(value))
    } else if key == "conventional_commits"@ || key == "body"@ || key == "show_thinking"@ {
        match parsed_flag(value) {
            Some(flag) => Some(SettingView::Flag(flag)),
            None => None,
        }
    } else if key == "exclude"@ {
        Some(SettingView::List(listed(value)))
    } else {
        match text::parse_signed(value) {
            Some(number) => Some(SettingView::Number(number)),
            None => None,
        }
    }
}

/// The config file is typed, so a string from the command line has to be
/// turned into the type that key expects before it is written.
pub fn parse_value(key: &str, value: &str) -> (r: Result<Setting, ConfigError>)
    ensures
        match parsed_setting(key@, value@) {
            Some(setting) => r matches Ok(s) && s@ == setting,
            None => r matches Err(ConfigError::BadValue { key: k, value: v }) && k@ == key@ && v@
                == value@,
        },
{
    if text::same(key, "model") || text::same(key, "endpoint") || text::same(key, "api_key_file")
        || text::same(key, "endpoint_file") {
        Ok(Setting::Text(value.to_owned()))
    } else if text::same(key, "conventional_commits") || text::same(key, "body") || text::same(
        key,
        "show_thinking",
    ) {
        if text::same(value, "true") {
            Ok(Setting::Flag(true))
        } else if text::same(value, "false") {
            Ok(Setting::Flag(false))
        } else {
            Err(ConfigError::BadValue { key: key.to_owned(), value: value.to_owned() })
        }
    } else if text::same(key, "exclude") {
        let parts = text::split_on(value, ',');
        let mut items: Vec<String> = Vec::new();
        for i in 0..parts.len()
            invariant
                items.len() == i,
                forall|j: int| 0 <= j < i ==> #[trigger] items@[j]@ == text::trim(parts@[j]@),
        {
            items.push(text::trimmed(parts[i].as_str()));
        }
        assert(text::texts(items@) =~= listed(value@)) by {
            assert forall|j: int| 0 <= j < parts.len() implies #[trigger] text::split(value@, ',')[j]
                == parts@[j]@ by {
                assert(text::texts(parts@)[j] == parts@[j]@);
            }
        }
        Ok(Setting::List(items))
    } else {
        match text::read_i64(value) {
            Some(number) => Ok(Setting::Number(number)),
            None => Err(ConfigError::BadValue { key: key.to_owned(), value: value.to_owned() }),
        }
    }
}

/// Whether there is a setting of that name.
pub fn is_key(key: &str) -> (r: bool)
    ensures
        r == setting_keys().contains(key@),
{
    let keys = Config::keys();
    for i in 0..keys.len()
        invariant
            text::texts(keys@) == setting_keys(),
            forall|j: int| 0 <= j < i ==> keys@[j]@ != key@,
    {
        if text::same(keys[i].as_str(), key) {
            assert(setting_keys()[i as int] == key@);
            return true;
        }
    }
    assert forall|j: int| 0 <= j < keys@.len() implies setting_keys()[j] != key@ by {
        assert(text::texts(keys@)[j] == keys@[j]@);
    }
    false
}

/// What came of reading a file as text.
#[derive(Debug)]
pub enum TextFile {
    /// There is no such file.
    Missing,
    /// The file could not be read, for the reason given.
    Unreadable(String),
    /// What it holds.
    Read(String),
}

/// Whether every entry is a value that some setting can have, or a flat one.
pub open spec fn is_plain(entries: Map<Seq<char>, SettingView>) -> bool {
    forall|key: Seq<char>| #[trigger] entries.dom().contains(key) ==> !(entries[key] is Other)
}

/// Whether these entries are what is read out of a document.
pub open spec fn reads_as(document: Seq<char>, entries: Map<Seq<char>, SettingView>) -> bool {
    &&& outside::toml_parsed(document) matches Ok(table)
    &&& outside::table_entries(table) == entries
}

/// Whether a text is the document for a table that holds these entries. Where
/// they are all plain, reading it gives them back.
pub open spec fn documents(rendered: Seq<char>, entries: Map<Seq<char>, SettingView>) -> bool {
    &&& exists|table: toml::Table| #[trigger]
        outside::table_entries(table) == entries && rendered == outside::toml_rendered(table)
    &&& is_plain(entries) ==> reads_as(rendered, entries)
}

/// What a config file holds with one key written into it: every other key as
/// it was. A file that is not there holds nothing.
///
/// The key is looked at first, then the file, then the value.
pub fn set(key: &str, value: &str, path: &str, file: &TextFile) -> (r: Result<String, ConfigError>)
    ensures
        if !setting_keys().contains(key@) {
            r matches Err(ConfigError::UnknownKey(k)) && k@ == key@
        } else {
            match *file {
                TextFile::Unreadable(why) => {
                    &&& r matches Err(ConfigError::Read { path: p, reason })
                    &&& p@ == path@
                    &&& reason@ == why@
                },
                TextFile::Missing => match parsed_setting(key@, value@) {
                    Some(setting) => {
                        &&& r matches Ok(rendered)
                        &&& documents(rendered@, map![key@ => setting])
                    },
                    None => {
                        &&& r matches Err(ConfigError::BadValue { key: k, value: v })
                        &&& k@ == key@
                        &&& v@ == value@
                    },
                },
                TextFile::Read(current) => match (
                    outside::toml_parsed(current@),
                    parsed_setting(key@, value@),
                ) {
                    (Err(error), _) => {
                        &&& r matches Err(ConfigError::Parse { path: p, reason })
                        &&& p@ == path@
                        &&& reason@ == outside::toml_error_shown(error)
                    },
                    (Ok(table), Some(setting)) => {
                        &&& r matches Ok(rendered)
                        &&& documents(
                            rendered@,
                            outside::table_entries(table).insert(key@, setting),
                        )
                    },
                    (Ok(_), None) => {
                        &&& r matches Err(ConfigError::BadValue { key: k, value: v })
                        &&& k@ == key@
                        &&& v@ == value@
                    },
                },
            }
        },
{
    if !is_key(key) {
        return Err(ConfigError::UnknownKey(key.to_owned()));
    }
    let mut table = match file {
        TextFile::Missing => outside::new_table(),
        TextFile::Unreadable(reason) => {
            return Err(ConfigError::Read { path: path.to_owned(), reason: reason.clone() });
        },
        TextFile::Read(current) => match outside::parse_table(current.as_str()) {
            Ok(table) => table,
            Err(error) => {
                return Err(
                    ConfigError::Parse {
                        path: path.to_owned(),
                        reason: outside::toml_error_text(&error),
                    },
                );
            },
        },
    };
    let ghost before = outside::table_entries(table);
    match parse_value(key, value) {
        Ok(setting) => {
            outside::insert_setting(&mut table, key, &setting);
            assert(file is Missing ==> before.insert(key@, setting@) =~= map![key@ => setting@]);
            Ok(outside::render_table(&table))
        },
        Err(error) => Err(error),
    }
}

impl ConfigError {
    /// What the error is, in words.
    pub fn message(&self) -> (r: String)
        ensures
            r@ == config_error_text(*self),
    {
        match self {
            ConfigError::Read { path, reason } => {
                let mut out = "could not read ".to_owned();
                out.append(path.as_str());
                out.append(": ");
                out.append(reason.as_str());
                out
            },
            ConfigError::Parse { path, reason } => {
                let mut out = path.clone();
                out.append(" is not valid TOML: ");
                out.append(reason.as_str());
                out
            },
            ConfigError::Write { path, reason } => {
                let mut out = "could not write ".to_owned();
                out.append(path.as_str());
                out.append(": ");
                out.append(reason.as_str());
                out
            },
            ConfigError::NoApiKey => {
                let mut out = "no API key. Set api_key_file in your config, or export AUTO_COMMIT_API_KEY. ".to_owned();
                out.append("A local endpoint that wants no key still needs one of these set to any value");
                out
            },
            ConfigError::UnknownKey(key) => {
                let mut out = "no such setting: ".to_owned();
                out.append(key.as_str());
                out
            },
            ConfigError::BadValue { key, value } => {
                let mut out = key.clone();
                out.append(" does not accept the value ");
                out.append(outside::quote(value.as_str()).as_str());
                out
            },
        }
    }
}

/// What a configuration error is, in words.
pub open spec fn config_error_text(error: ConfigError) -> Seq<char> {
    match error {
        ConfigError::Read { path, reason } => "could not read "@ + path@ + ": "@ + reason@,
        ConfigError::Parse { path, reason } => path@ + " is not valid TOML: "@ + reason@,
        ConfigError::Write { path, reason } => "could not write "@ + path@ + ": "@ + reason@,
        ConfigError::NoApiKey => {
            "no API key. Set api_key_file in your config, or export AUTO_COMMIT_API_KEY. "@
                + "A local endpoint that wants no key still needs one of these set to any value"@
        },
        ConfigError::UnknownKey(key) => "no such setting: "@ + key@,
        ConfigError::BadValue { key, value } => key@ + " does not accept the value "@
            + outside::debug_quoted(value@),
    }
}

/// The lines that report every setting.
pub open spec fn report_lines(config: ConfigView, keys: Seq<Seq<char>>) -> Seq<Seq<char>> {
    Seq::new(
        keys.len(),
        |i: int| keys[i] + " = "@ + match reported(config, keys[i]) {
            Some(value) => value,
            None => Seq::empty(),
        },
    )
}

impl Config {
    /// The lines that report every setting.
    pub fn report(&self) -> (r: Vec<String>)
        ensures
            text::texts(r@) == report_lines(self@, setting_keys()),
    {
        let keys = Self::keys();
        let mut out: Vec<String> = Vec::new();
        for i in 0..keys.len()
            invariant
                text::texts(keys@) == setting_keys(),
                out.len() == i,
                forall|j: int|
                    0 <= j < i ==> #[trigger] out@[j]@ == report_lines(self@, setting_keys())[j],
        {
            proof {
                assert(text::texts(keys@)[i as int] == keys@[i as int]@);
                law_every_key_is_reported(self@, keys@[i as int]@);
                assert(setting_keys().contains(keys@[i as int]@));
            }
            let mut line = keys[i].clone();
            line.append(" = ");
            if let Ok(value) = self.get(keys[i].as_str()) {
                line.append(value.as_str());
            }
            out.push(line);
        }
        assert(text::texts(keys@).len() == keys@.len());
        assert(text::texts(out@) =~= report_lines(self@, setting_keys()));
        out
    }
}

/// What is said once a setting is written.
pub fn written_note(key: &str, path: &str) -> (r: String)
    ensures
        r@ == key@ + " written to "@ + path@,
{
    let mut out = key.to_owned();
    out.append(" written to ");
    out.append(path);
    out
}

/// How a config file with a new setting in it leaves.
#[derive(Debug)]
pub enum Saving {
    /// It is printed, and nothing changes.
    Print(String),
    /// It takes the place of the file.
    Write(String),
}

/// How a config file with a new setting in it leaves: printed where only printing was
/// asked for, and written otherwise.
pub fn saving(document: String, global: &GlobalArgs) -> (r: Saving)
    ensures
        r == if global.print {
            Saving::Print(document)
        } else {
            Saving::Write(document)
        },
{
    if global.print {
        Saving::Print(document)
    } else {
        Saving::Write(document)
    }
}

// ---------------------------------------------------------------------------
// Laws
// ---------------------------------------------------------------------------

/// A layer that states nothing changes nothing, and a layer over one that
/// states nothing is what is said.
pub proof fn law_empty_layer_is_neutral(layer: LayerView)
    ensures
        merged(layer, empty_layer()) == layer,
        merged(empty_layer(), layer) == layer,
{
}

/// It does not matter in which order neighbouring layers are put together.
pub proof fn law_merge_is_associative(a: LayerView, b: LayerView, c: LayerView)
    ensures
        merged(merged(a, b), c) == merged(a, merged(b, c)),
{
}

/// Each layer overrides only the fields that it states: what the command line
/// says of the model holds; where it says nothing, the environment does; then
/// the repository, the user and the system, in that order; and then the
/// default.
pub proof fn law_model_precedence(
    system: LayerView,
    user: LayerView,
    repository: LayerView,
    env: Environment,
    args: GlobalArgs,
)
    ensures
        resolved(all_layers(system, user, repository, env, args)).model == or(
            text::opt_text(args.model),
            or(
                first_set(seq![text::opt_text(env.model)]),
                or(
                    repository.model,
                    or(user.model, or(system.model, default_config().model)),
                ),
            ),
        ),
{
}

/// What the files say of a field: the repository's own first, then the user's, then
/// the system's, and the default last.
pub open spec fn from_files<T>(
    system: Option<T>,
    user: Option<T>,
    repository: Option<T>,
    default: T,
) -> T {
    or(repository, or(user, or(system, default)))
}

/// Of the other settings, a flag wins where there is one and it is given, and the
/// files follow in their order.
pub proof fn law_setting_precedence(
    system: LayerView,
    user: LayerView,
    repository: LayerView,
    env: Environment,
    args: GlobalArgs,
)
    ensures
        ({
            let config = resolved(all_layers(system, user, repository, env, args));
            let d = default_config();
            &&& config.exclude == from_files(
                system.exclude,
                user.exclude,
                repository.exclude,
                d.exclude,
            )
            &&& config.body == from_files(system.body, user.body, repository.body, d.body)
            &&& config.subject_max_len == from_files(
                system.subject_max_len,
                user.subject_max_len,
                repository.subject_max_len,
                d.subject_max_len,
            )
            &&& config.max_diff_bytes == from_files(
                system.max_diff_bytes,
                user.max_diff_bytes,
                repository.max_diff_bytes,
                d.max_diff_bytes,
            )
            &&& config.max_file_diff_bytes == from_files(
                system.max_file_diff_bytes,
                user.max_file_diff_bytes,
                repository.max_file_diff_bytes,
                d.max_file_diff_bytes,
            )
            &&& config.max_tool_bytes == from_files(
                system.max_tool_bytes,
                user.max_tool_bytes,
                repository.max_tool_bytes,
                d.max_tool_bytes,
            )
            &&& config.api_key_file == over(
                over(system.api_key_file, user.api_key_file),
                repository.api_key_file,
            )
            &&& config.context_commits == or(
                args.context_commits,
                from_files(
                    system.context_commits,
                    user.context_commits,
                    repository.context_commits,
                    d.context_commits,
                ),
            )
            &&& config.max_tool_calls == or(
                args.max_tool_calls,
                from_files(
                    system.max_tool_calls,
                    user.max_tool_calls,
                    repository.max_tool_calls,
                    d.max_tool_calls,
                ),
            )
            &&& config.candidates == or(
                args.candidates,
                from_files(
                    system.candidates,
                    user.candidates,
                    repository.candidates,
                    d.candidates,
                ),
            )
            &&& config.show_thinking == (args.show_thinking || from_files(
                system.show_thinking,
                user.show_thinking,
                repository.show_thinking,
                d.show_thinking,
            ))
            &&& config.conventional_commits == (args.conventional || from_files(
                system.conventional_commits,
                user.conventional_commits,
                repository.conventional_commits,
                d.conventional_commits,
            ))
        }),
{
}

/// An endpoint that is named on the command line or in the environment is not
/// shadowed by a file: it is the one that is used and the one that is reported.
pub proof fn law_named_endpoint_wins(
    system: LayerView,
    user: LayerView,
    repository: LayerView,
    env: Environment,
    args: GlobalArgs,
)
    requires
        named_endpoint(env, args) is Some,
    ensures
        ({
            let config = resolved(all_layers(system, user, repository, env, args));
            &&& config.endpoint_file is None
            &&& Some(config.endpoint) == named_endpoint(env, args)
            &&& reported(config, "endpoint"@) == named_endpoint(env, args)
        }),
{
    lemma_keys_differ();
}

/// Where the endpoint comes from a file, no report depends on the endpoint.
pub proof fn law_get_reveals_no_secret(a: ConfigView, b: ConfigView, key: Seq<char>)
    requires
        a.endpoint_file is Some,
        b == (ConfigView { endpoint: b.endpoint, ..a }),
    ensures
        reported(a, key) == reported(b, key),
{
    lemma_keys_differ();
}

/// A report exists for exactly the settings that there are, and exactly those
/// can be set.
pub proof fn law_every_key_is_reported(config: ConfigView, key: Seq<char>)
    ensures
        reported(config, key) is Some <==> setting_keys().contains(key),
{
    let keys = setting_keys();
    assert(keys[0] == "model"@ && keys[1] == "endpoint"@ && keys[2] == "api_key_file"@ && keys[3]
        == "endpoint_file"@ && keys[4] == "context_commits"@ && keys[5] == "max_diff_bytes"@
        && keys[6] == "max_file_diff_bytes"@ && keys[7] == "max_tool_calls"@ && keys[8]
        == "max_tool_bytes"@ && keys[9] == "exclude"@ && keys[10] == "conventional_commits"@
        && keys[11] == "subject_max_len"@ && keys[12] == "body"@ && keys[13] == "candidates"@
        && keys[14] == "show_thinking"@);
}

proof fn lemma_keys_differ()
    ensures
        "model"@ != "endpoint"@,
{
    reveal_strlit("model");
    reveal_strlit("endpoint");
    assert("model"@.len() == 5);
    assert("endpoint"@.len() == 8);
}

/// What a value has to be for its key.
pub open spec fn fits_key(key: Seq<char>, setting: SettingView) -> bool {
    &&& (key == "model"@ || key == "endpoint"@ || key == "api_key_file"@ || key
        == "endpoint_file"@) ==> setting is Text
    &&& (key == "conventional_commits"@ || key == "body"@ || key == "show_thinking"@)
        ==> setting is Flag
    &&& key == "exclude"@ ==> setting is List
    &&& (key == "context_commits"@ || key == "max_diff_bytes"@ || key == "max_file_diff_bytes"@
        || key == "max_tool_calls"@ || key == "max_tool_bytes"@ || key == "subject_max_len"@ || key
        == "candidates"@) ==> setting is Number
}

/// A value that is written has the type that its key expects.
pub proof fn law_values_fit_their_keys(key: Seq<char>, value: Seq<char>)
    ensures
        parsed_setting(key, value) matches Some(setting) ==> fits_key(key, setting),
{
    reveal_strlit("model");
    reveal_strlit("endpoint");
    reveal_strlit("api_key_file");
    reveal_strlit("endpoint_file");
    reveal_strlit("context_commits");
    reveal_strlit("max_diff_bytes");
    reveal_strlit("max_file_diff_bytes");
    reveal_strlit("max_tool_calls");
    reveal_strlit("max_tool_bytes");
    reveal_strlit("exclude");
    reveal_strlit("conventional_commits");
    reveal_strlit("subject_max_len");
    reveal_strlit("body");
    reveal_strlit("candidates");
    reveal_strlit("show_thinking");
    assert("api_key_file"@[0] == 'a' && "conventional_commits"@[0] == 'c' && "body"@[0] == 'b'
        && "show_thinking"@[0] == 's' && "exclude"@[1] == 'x' && "context_commits"@.len() == 15
        && "max_diff_bytes"@[0] == 'm' && "max_file_diff_bytes"@[0] == 'm' && "max_tool_calls"@[0]
        == 'm' && "max_tool_bytes"@[0] == 'm' && "subject_max_len"@[1] == 'u' && "candidates"@.len()
        == 10 && "endpoint"@[0] == 'e' && "endpoint_file"@[1] == 'n' && "show_thinking"@[1] == 'h'
        && "endpoint"@[1] == 'n' && "model"@.len() == 5 && "conventional_commits"@.len() == 20
        && "exclude"@[0] == 'e' && "endpoint_file"@[0] == 'e' && "model"@[0] == 'm'
        && "subject_max_len"@[0] == 's' && "candidates"@[0] == 'c' && "context_commits"@[0] == 'c');
}

/// A setting that was written is read back, and so is every other entry of a file
/// that holds nothing but settings and flat values. What is nested too deeply would
/// be refused.
pub proof fn law_written_settings_are_read_back(
    key: Seq<char>,
    value: Seq<char>,
    entries: Map<Seq<char>, SettingView>,
    written: Seq<char>,
)
    requires
        parsed_setting(key, value) is Some,
        is_plain(entries),
        documents(written, entries.insert(key, parsed_setting(key, value)->0)),
    ensures
        outside::toml_parsed(written) is Ok,
        ({
            let read = outside::table_entries(outside::toml_parsed(written)->Ok_0);
            &&& read.dom().contains(key)
            &&& read[key] == parsed_setting(key, value)->0
            &&& forall|other: Seq<char>|
                other != key ==> (#[trigger] read.dom().contains(other)
                    <==> entries.dom().contains(other))
            &&& forall|other: Seq<char>|
                other != key && #[trigger] read.dom().contains(other) ==> read[other]
                    == entries[other]
        }),
{
    let after = entries.insert(key, parsed_setting(key, value)->0);
    assert forall|k: Seq<char>| #[trigger] after.dom().contains(k) implies !(after[k] is Other) by {
        if k != key {
            assert(entries.dom().contains(k));
        }
    }
    assert(is_plain(after));
}

/// A layer over another states what it states itself, and where it states nothing, what
/// lies below it holds; a default holds where nothing is stated at all.
pub proof fn law_what_is_stated_holds<T>(base: Option<T>, value: T, default: T)
    ensures
        over(base, Some(value)) == Some(value),
        over(base, None) == base,
        or(Some(value), default) == value,
        or(None, default) == default,
        from_files(base, None, Some(value), default) == value,
        from_files(base, Some(value), None, default) == value,
        from_files(Some(value), None, None, default) == value,
        from_files(None, None, None, default) == default,
{
}

/// Of several variables, those that are not set and those set to nothing but white space
/// are passed over, and the first other one counts, without the white space around it.
pub proof fn law_first_variable_set_counts(
    passed: Seq<Option<Seq<char>>>,
    value: Seq<char>,
    rest: Seq<Option<Seq<char>>>,
)
    requires
        forall|i: int|
            0 <= i < passed.len() ==> ((#[trigger] passed[i]) matches Some(v) ==> text::all_white(
                v,
            )),
    ensures
        first_set(passed) is None,
        first_set(passed + rest) == first_set(rest),
        !text::all_white(value) ==> first_set(passed + seq![Some(value)] + rest) == Some(
            text::trim(value),
        ),
    decreases passed.len(),
{
    if passed.len() == 0 {
        assert(passed + rest =~= rest);
        assert(passed + seq![Some(value)] + rest =~= seq![Some(value)] + rest);
        text::law_trim_takes_white_space_off_the_ends(value);
        reveal_with_fuel(first_set, 2);
    } else {
        let below = passed.drop_first();
        assert(passed[0] matches Some(v) ==> text::all_white(v));
        if let Some(v) = passed[0] {
            text::law_trim_takes_white_space_off_the_ends(v);
        }
        assert forall|i: int| 0 <= i < below.len() implies ((#[trigger] below[i]) matches Some(v)
            ==> text::all_white(v)) by {
            assert(below[i] == passed[i + 1]);
        }
        law_first_variable_set_counts(below, value, rest);
        assert((passed + rest).drop_first() =~= below + rest);
        assert((passed + seq![Some(value)] + rest).drop_first() =~= below + seq![Some(value)]
            + rest);
    }
}

/// Whether a variable is set to something other than white space.
pub open spec fn is_set(variable: Option<String>) -> bool {
    match variable {
        Some(value) => !text::all_white(value@),
        None => false,
    }
}

/// The endpoint is taken from the flag. Without it, the tool's own variable counts, then
/// the one that other tools share. Where none of these names one, it is that of the
/// repository file, else that of the user file, else that of the system file, else the
/// default.
pub proof fn law_endpoint_precedence(
    system: LayerView,
    user: LayerView,
    repository: LayerView,
    env: Environment,
    args: GlobalArgs,
)
    ensures
        ({
            let config = resolved(all_layers(system, user, repository, env, args));
            match args.endpoint {
                Some(endpoint) => config.endpoint == endpoint@ && config.endpoint_file is None,
                None => if is_set(env.endpoint) {
                    &&& config.endpoint == text::trim(env.endpoint->0@)
                    &&& config.endpoint_file is None
                } else if is_set(env.openai_base_url) {
                    &&& config.endpoint == text::trim(env.openai_base_url->0@)
                    &&& config.endpoint_file is None
                } else {
                    &&& config.endpoint == match (repository.endpoint, user.endpoint, system.endpoint) {
                        (Some(endpoint), _, _) => endpoint,
                        (None, Some(endpoint), _) => endpoint,
                        (None, None, Some(endpoint)) => endpoint,
                        (None, None, None) => "https://api.openai.com/v1"@,
                    }
                    &&& config.endpoint_file == match (
                        repository.endpoint_file,
                        user.endpoint_file,
                        system.endpoint_file,
                    ) {
                        (Some(path), _, _) => Some(path),
                        (None, Some(path), _) => Some(path),
                        (None, None, last) => last,
                    }
                },
            }
        }),
{
    let a = seq![text::opt_text(env.endpoint), text::opt_text(env.openai_base_url)];
    reveal_with_fuel(first_set, 3);
    if let Some(v) = env.endpoint {
        text::law_trim_takes_white_space_off_the_ends(v@);
    }
    if let Some(v) = env.openai_base_url {
        text::law_trim_takes_white_space_off_the_ends(v@);
    }
    assert(a.drop_first()[0] == text::opt_text(env.openai_base_url));
    assert(a.drop_first().drop_first().len() == 0);
}

/// The model is the one that the flag names, else the one in the environment, else that
/// of the files, the repository's first.
pub proof fn law_model_is_the_one_named(
    system: LayerView,
    user: LayerView,
    repository: LayerView,
    env: Environment,
    args: GlobalArgs,
)
    ensures
        resolved(all_layers(system, user, repository, env, args)).model == match args.model {
            Some(model) => model@,
            None => if is_set(env.model) {
                text::trim(env.model->0@)
            } else {
                match (repository.model, user.model, system.model) {
                    (Some(model), _, _) => model,
                    (None, Some(model), _) => model,
                    (None, None, Some(model)) => model,
                    (None, None, None) => "gpt-5.6-luna"@,
                }
            },
        },
{
    let a = seq![text::opt_text(env.model)];
    reveal_with_fuel(first_set, 2);
    if let Some(v) = env.model {
        text::law_trim_takes_white_space_off_the_ends(v@);
    }
    assert(a.drop_first().len() == 0);
}

/// What no file, variable or flag states keeps its default, whatever else they state.
pub proof fn law_defaults_hold(
    system: LayerView,
    user: LayerView,
    repository: LayerView,
    env: Environment,
    args: GlobalArgs,
)
    ensures
        ({
            let files = merged(merged(system, user), repository);
            let config = resolved(all_layers(system, user, repository, env, args));
            &&& files.context_commits is None && args.context_commits is None
                ==> config.context_commits == 10
            &&& files.max_diff_bytes is None ==> config.max_diff_bytes == 60_000
            &&& files.max_file_diff_bytes is None ==> config.max_file_diff_bytes == 12_000
            &&& files.max_tool_calls is None && args.max_tool_calls is None
                ==> config.max_tool_calls == 2
            &&& files.max_tool_bytes is None ==> config.max_tool_bytes == 24_000
            &&& files.exclude is None ==> config.exclude == seq![
                "*.lock"@,
                "*.min.js"@,
                "*.min.css"@,
                "*.snap"@,
                "package-lock.json"@,
                "pnpm-lock.yaml"@,
                "yarn.lock"@,
                "Cargo.lock"@,
                "go.sum"@,
                "poetry.lock"@,
                "vendor/**"@,
                "dist/**"@,
            ]
            &&& files.conventional_commits is None ==> config.conventional_commits
                == args.conventional
            &&& files.subject_max_len is None ==> config.subject_max_len == 72
            &&& files.body is None ==> config.body
            &&& files.candidates is None && args.candidates is None ==> config.candidates == 1
            &&& files.show_thinking is None ==> config.show_thinking == args.show_thinking
            &&& files.api_key_file is None ==> config.api_key_file is None
        }),
{
}

/// A path below a directory starts with the directory and ends with what is below it. It
/// makes no difference whether the directory is written with a slash at its end, and what
/// lies two levels down is found in one step or in two.
pub proof fn law_paths_are_joined(base: Seq<char>, middle: Seq<char>, below: Seq<char>)
    ensures
        text::starts_with(join_path(base, below), base),
        text::has_end(join_path(base, below), below),
        join_path(base, below).len() <= base.len() + 1 + below.len(),
        base.len() > 0 && base.last() != '/' ==> join_path(base, below) == join_path(
            base.push('/'),
            below,
        ),
        middle.len() > 0 ==> join_path(join_path(base, middle), below) == join_path(
            base,
            join_path(middle, below),
        ),
{
    reveal_strlit("/");
    assert(join_path(base, below).take(base.len() as int) =~= base);
    assert(join_path(base, below).skip(join_path(base, below).len() - below.len()) =~= below);
    if base.len() > 0 && base.last() != '/' {
        assert(base + "/"@ + below =~= base.push('/') + below);
    }
    if middle.len() > 0 {
        assert(join_path(base, middle).last() == middle.last());
        assert(join_path(join_path(base, middle), below) =~= join_path(
            base,
            join_path(middle, below),
        ));
    }
}

/// What is reported for a setting can be set again, and then says the same as before.
/// A list does where none of its parts holds a comma or has white space around it.
pub proof fn law_reports_can_be_set_again(config: ConfigView)
    requires
        config.context_commits <= 0x7fff_ffff_ffff_ffff,
        config.max_diff_bytes <= 0x7fff_ffff_ffff_ffff,
        config.max_file_diff_bytes <= 0x7fff_ffff_ffff_ffff,
        config.max_tool_bytes <= 0x7fff_ffff_ffff_ffff,
        config.subject_max_len <= 0x7fff_ffff_ffff_ffff,
        config.candidates <= 0x7fff_ffff_ffff_ffff,
    ensures
        set_again(config, "model"@) == Some(SettingView::Text(config.model)),
        config.endpoint_file is None ==> set_again(config, "endpoint"@) == Some(
            SettingView::Text(config.endpoint),
        ),
        config.api_key_file matches Some(path) ==> set_again(config, "api_key_file"@) == Some(
            SettingView::Text(path),
        ),
        config.endpoint_file matches Some(path) ==> set_again(config, "endpoint_file"@) == Some(
            SettingView::Text(path),
        ),
        set_again(config, "context_commits"@) == Some(
            SettingView::Number(config.context_commits as int),
        ),
        set_again(config, "max_diff_bytes"@) == Some(
            SettingView::Number(config.max_diff_bytes as int),
        ),
        set_again(config, "max_file_diff_bytes"@) == Some(
            SettingView::Number(config.max_file_diff_bytes as int),
        ),
        set_again(config, "max_tool_calls"@) == Some(
            SettingView::Number(config.max_tool_calls as int),
        ),
        set_again(config, "max_tool_bytes"@) == Some(
            SettingView::Number(config.max_tool_bytes as int),
        ),
        set_again(config, "subject_max_len"@) == Some(
            SettingView::Number(config.subject_max_len as int),
        ),
        set_again(config, "candidates"@) == Some(SettingView::Number(config.candidates as int)),
        set_again(config, "conventional_commits"@) == Some(
            SettingView::Flag(config.conventional_commits),
        ),
        set_again(config, "body"@) == Some(SettingView::Flag(config.body)),
        set_again(config, "show_thinking"@) == Some(SettingView::Flag(config.show_thinking)),
        config.exclude.len() > 0 && (forall|i: int|
            0 <= i < config.exclude.len() ==> text::trim(#[trigger] config.exclude[i])
                == config.exclude[i] && !config.exclude[i].contains(',')) ==> set_again(
            config,
            "exclude"@,
        ) == Some(SettingView::List(config.exclude)),
{
    lemma_all_keys_differ();
    text::law_numbers_read_back(config.context_commits as nat, Seq::empty(), 0);
    text::law_numbers_read_back(config.max_diff_bytes as nat, Seq::empty(), 0);
    text::law_numbers_read_back(config.max_file_diff_bytes as nat, Seq::empty(), 0);
    text::law_numbers_read_back(config.max_tool_calls as nat, Seq::empty(), 0);
    text::law_numbers_read_back(config.max_tool_bytes as nat, Seq::empty(), 0);
    text::law_numbers_read_back(config.subject_max_len as nat, Seq::empty(), 0);
    text::law_numbers_read_back(config.candidates as nat, Seq::empty(), 0);
    reveal_strlit("true");
    reveal_strlit("false");
    assert("true"@.len() != "false"@.len());
    if config.exclude.len() > 0 && (forall|i: int|
        0 <= i < config.exclude.len() ==> text::trim(#[trigger] config.exclude[i])
            == config.exclude[i] && !config.exclude[i].contains(',')) {
        lemma_joined_list(config.exclude);
    }
}

/// What comes of setting what is reported for a key.
pub open spec fn set_again(config: ConfigView, key: Seq<char>) -> Option<SettingView> {
    match reported(config, key) {
        Some(value) => parsed_setting(key, value),
        None => None,
    }
}

/// The parts of a list are told one by one, each without the white space around it.
pub proof fn law_lists_are_read_part_by_part(part: Seq<char>, rest: Seq<char>)
    requires
        !part.contains(','),
    ensures
        listed(part) == seq![text::trim(part)],
        listed(part.push(',') + rest) == seq![text::trim(part)] + listed(rest),
{
    text::law_splits_are_told_one_by_one(part, ',', rest);
    assert(listed(part) =~= seq![text::trim(part)]);
    assert(listed(part.push(',') + rest) =~= seq![text::trim(part)] + listed(rest));
}

proof fn lemma_joined_list(items: Seq<Seq<char>>)
    requires
        items.len() > 0,
        forall|i: int|
            0 <= i < items.len() ==> text::trim(#[trigger] items[i]) == items[i]
                && !items[i].contains(','),
    ensures
        listed(text::join(items, ", "@)) == items,
        listed(" "@ + text::join(items, ", "@)) == items,
    decreases items.len(),
{
    reveal_strlit(", ");
    reveal_strlit(" ");
    let first = items[0];
    let padded = " "@ + first;
    let rest = items.drop_first();
    assert(text::trim(items[0]) == items[0]);
    assert forall|i: int| 0 <= i < padded.len() implies padded[i] != ',' by {
        if i > 0 && padded[i] == ',' {
            assert(first[i - 1] == ',');
            assert(first.contains(','));
        }
    }
    assert(!padded.contains(','));
    assert(padded.drop_first() =~= first);
    assert(text::trim(padded) == first);
    if items.len() == 1 {
        text::law_joins_are_put_together(items, items, first, ", "@);
        assert(items =~= seq![first]);
        law_lists_are_read_part_by_part(first, Seq::empty());
        law_lists_are_read_part_by_part(padded, Seq::empty());
    } else {
        assert forall|i: int| 0 <= i < rest.len() implies text::trim(#[trigger] rest[i]) == rest[i]
            && !rest[i].contains(',') by {
            assert(rest[i] == items[i + 1]);
        }
        lemma_joined_list(rest);
        text::law_joins_are_put_together(seq![first], rest, first, ", "@);
        assert(items =~= seq![first] + rest);
        let tail = " "@ + text::join(rest, ", "@);
        assert(text::join(items, ", "@) =~= first.push(',') + tail);
        assert(" "@ + text::join(items, ", "@) =~= padded.push(',') + tail);
        law_lists_are_read_part_by_part(first, tail);
        law_lists_are_read_part_by_part(padded, tail);
    }
}

/// Nothing but `true` and `false` is a truth value, and nothing but digits behind a sign
/// is a number.
pub proof fn law_wrong_values_are_refused(key: Seq<char>, value: Seq<char>)
    ensures
        (key == "conventional_commits"@ || key == "body"@ || key == "show_thinking"@) && value
            != "true"@ && value != "false"@ ==> parsed_setting(key, value) is None,
        (key == "context_commits"@ || key == "max_diff_bytes"@ || key == "max_file_diff_bytes"@
            || key == "max_tool_calls"@ || key == "max_tool_bytes"@ || key == "subject_max_len"@
            || key == "candidates"@) && (value.len() == 0 || exists|i: int|
            1 <= i < value.len() && !text::is_digit(#[trigger] value[i])) ==> parsed_setting(
            key,
            value,
        ) is None,
{
    lemma_all_keys_differ();
    text::law_numbers_read_back(0, value, 0);
}

proof fn lemma_all_keys_differ()
    ensures
        forall|i: int, j: int|
            0 <= i < j < setting_keys().len() ==> #[trigger] setting_keys()[i]
                != #[trigger] setting_keys()[j],
        setting_keys()[0] == "model"@,
        setting_keys()[1] == "endpoint"@,
        setting_keys()[2] == "api_key_file"@,
        setting_keys()[3] == "endpoint_file"@,
        setting_keys()[4] == "context_commits"@,
        setting_keys()[5] == "max_diff_bytes"@,
        setting_keys()[6] == "max_file_diff_bytes"@,
        setting_keys()[7] == "max_tool_calls"@,
        setting_keys()[8] == "max_tool_bytes"@,
        setting_keys()[9] == "exclude"@,
        setting_keys()[10] == "conventional_commits"@,
        setting_keys()[11] == "subject_max_len"@,
        setting_keys()[12] == "body"@,
        setting_keys()[13] == "candidates"@,
        setting_keys()[14] == "show_thinking"@,
{
    reveal_strlit("model");
    reveal_strlit("endpoint");
    reveal_strlit("api_key_file");
    reveal_strlit("endpoint_file");
    reveal_strlit("context_commits");
    reveal_strlit("max_diff_bytes");
    reveal_strlit("max_file_diff_bytes");
    reveal_strlit("max_tool_calls");
    reveal_strlit("max_tool_bytes");
    reveal_strlit("exclude");
    reveal_strlit("conventional_commits");
    reveal_strlit("subject_max_len");
    reveal_strlit("body");
    reveal_strlit("candidates");
    reveal_strlit("show_thinking");
    // Of two names of one length, a character differs.
    assert("max_diff_bytes"@[4] == 'd' && "max_tool_calls"@[4] == 't' && "max_tool_bytes"@[4]
        == 't' && "max_tool_calls"@[9] == 'c' && "max_tool_bytes"@[9] == 'b');
    assert("endpoint_file"@[0] == 'e' && "show_thinking"@[0] == 's');
    assert("context_commits"@[0] == 'c' && "subject_max_len"@[0] == 's');
    let k = setting_keys();
    let sizes = seq![5nat, 8, 12, 13, 15, 14, 19, 14, 14, 7, 20, 15, 4, 10, 13];
    assert forall|i: int| 0 <= i < 15 implies (#[trigger] k[i]).len() == sizes[i] by {}
    assert forall|i: int, j: int| 0 <= i < j < k.len() implies #[trigger] k[i] != #[trigger] k[j] by {
        if k[i] == k[j] {
            assert(sizes[i] == sizes[j]);
        }
    }
}

/// The report has one line for each setting, in order: its name, an equals sign between
/// spaces, and what is reported for it.
pub proof fn law_report_has_a_line_for_each_setting(config: ConfigView, i: int)
    requires
        0 <= i < setting_keys().len(),
    ensures
        report_lines(config, setting_keys()).len() == 15,
        report_lines(config, setting_keys())[i] == setting_keys()[i] + " = "@ + reported(
            config,
            setting_keys()[i],
        )->0,
        reported(config, setting_keys()[i]) is Some,
        report_lines(config, setting_keys())[0] == "model = "@ + config.model,
{
    law_every_key_is_reported(config, setting_keys()[i]);
    assert(setting_keys().contains(setting_keys()[i]));
    reveal_strlit("model");
    reveal_strlit(" = ");
    reveal_strlit("model = ");
    assert("model = "@ =~= "model"@ + " = "@);
}

/// An endpoint that is read from a file is reported by that file's path, which can be
/// read off.
pub proof fn law_endpoint_file_is_reported(config: ConfigView)
    ensures
        config.endpoint_file matches Some(path) ==> reported(config, "endpoint"@) == Some(
            "<read from "@ + path + ">"@,
        ) && reported(config, "endpoint_file"@) == Some(path),
        config.endpoint_file is None ==> reported(config, "endpoint"@) == Some(config.endpoint)
            && reported(config, "endpoint_file"@) == Some(Seq::<char>::empty()),
        config.api_key_file is None ==> reported(config, "api_key_file"@) == Some(
            Seq::<char>::empty(),
        ),
{
    lemma_all_keys_differ();
    reveal_strlit("");
    assert(""@ =~= Seq::<char>::empty());
}

/// What an error says names what it is about: the file and the reason, the key, and the
/// value that was refused.
pub proof fn law_errors_name_what_they_are_about(error: ConfigError)
    ensures
        error matches ConfigError::Read { path, reason } ==> text::has_part(
            config_error_text(error),
            path@,
        ) && text::has_end(config_error_text(error), ": "@ + reason@) && text::starts_with(
            config_error_text(error),
            "could not read "@,
        ),
        error matches ConfigError::Parse { path, reason } ==> text::starts_with(
            config_error_text(error),
            path@,
        ) && text::has_end(config_error_text(error), " is not valid TOML: "@ + reason@),
        error matches ConfigError::Write { path, reason } ==> text::has_part(
            config_error_text(error),
            path@,
        ) && text::has_end(config_error_text(error), ": "@ + reason@) && text::starts_with(
            config_error_text(error),
            "could not write "@,
        ),
        error matches ConfigError::UnknownKey(key) ==> text::has_end(
            config_error_text(error),
            key@,
        ) && text::starts_with(config_error_text(error), "no such setting"@),
        error matches ConfigError::BadValue { key, value } ==> text::starts_with(
            config_error_text(error),
            key@,
        ) && text::has_end(config_error_text(error), outside::debug_quoted(value@)),
        error matches ConfigError::NoApiKey ==> text::starts_with(
            config_error_text(error),
            "no API key. Set api_key_file in your config, or export AUTO_COMMIT_API_KEY."@,
        ),
{
    let t = config_error_text(error);
    match error {
        ConfigError::Read { path, reason } => {
            text::lemma_part_between("could not read "@, path@, ": "@ + reason@);
            assert(t =~= "could not read "@ + path@ + (": "@ + reason@));
            assert(t.skip(t.len() - (": "@ + reason@).len()) =~= ": "@ + reason@);
            assert(t.take("could not read "@.len() as int) =~= "could not read "@);
        },
        ConfigError::Parse { path, reason } => {
            let e = " is not valid TOML: "@ + reason@;
            assert(t =~= path@ + e);
            assert(t.skip(t.len() - e.len()) =~= e);
            assert(t.take(path@.len() as int) =~= path@);
        },
        ConfigError::Write { path, reason } => {
            text::lemma_part_between("could not write "@, path@, ": "@ + reason@);
            assert(t =~= "could not write "@ + path@ + (": "@ + reason@));
            assert(t.skip(t.len() - (": "@ + reason@).len()) =~= ": "@ + reason@);
            assert(t.take("could not write "@.len() as int) =~= "could not write "@);
        },
        ConfigError::NoApiKey => {
            let a = "no API key. Set api_key_file in your config, or export AUTO_COMMIT_API_KEY. "@;
            let b = "no API key. Set api_key_file in your config, or export AUTO_COMMIT_API_KEY."@;
            reveal_strlit(
                "no API key. Set api_key_file in your config, or export AUTO_COMMIT_API_KEY. ",
            );
            reveal_strlit(
                "no API key. Set api_key_file in your config, or export AUTO_COMMIT_API_KEY.",
            );
            assert(t.take(b.len() as int) =~= b);
        },
        ConfigError::UnknownKey(key) => {
            assert(t.skip(t.len() - key@.len()) =~= key@);
            reveal_strlit("no such setting: ");
            reveal_strlit("no such setting");
            assert(t.take("no such setting"@.len() as int) =~= "no such setting"@);
        },
        ConfigError::BadValue { key, value } => {
            let q = outside::debug_quoted(value@);
            assert(t.skip(t.len() - q.len()) =~= q);
            assert(t.take(key@.len() as int) =~= key@);
        },
    }
}

/// A layer says what its fields hold, and a file that is not there says nothing.
pub proof fn law_layers_say_what_they_hold(layer: Layer)
    ensures
        layer_or_empty(None) == empty_layer(),
        ({
            let said = layer_or_empty(Some(layer));
            &&& said.model == text::opt_text(layer.model)
            &&& said.endpoint == text::opt_text(layer.endpoint)
            &&& said.api_key_file == text::opt_text(layer.api_key_file)
            &&& said.endpoint_file == text::opt_text(layer.endpoint_file)
            &&& said.context_commits == layer.context_commits
            &&& said.max_diff_bytes == layer.max_diff_bytes
            &&& said.max_file_diff_bytes == layer.max_file_diff_bytes
            &&& said.max_tool_calls == layer.max_tool_calls
            &&& said.max_tool_bytes == layer.max_tool_bytes
            &&& layer.exclude matches Some(list) ==> said.exclude == Some(text::texts(list@))
            &&& layer.exclude is None ==> said.exclude is None
            &&& said.conventional_commits == layer.conventional_commits
            &&& said.subject_max_len == layer.subject_max_len
            &&& said.body == layer.body
            &&& said.candidates == layer.candidates
            &&& said.show_thinking == layer.show_thinking
        }),
        empty_layer().model is None && empty_layer().endpoint is None
            && empty_layer().api_key_file is None && empty_layer().endpoint_file is None,
{
}

/// What is reported for a setting is what it holds: a text as it is, a number in decimal, a
/// truth value in its word, and a list with commas between its parts.
pub proof fn law_reports_tell_what_is_set(config: ConfigView)
    ensures
        reported(config, "model"@) == Some(config.model),
        reported(config, "context_commits"@) == Some(text::decimal(config.context_commits as nat)),
        reported(config, "max_diff_bytes"@) == Some(text::decimal(config.max_diff_bytes as nat)),
        reported(config, "max_file_diff_bytes"@) == Some(
            text::decimal(config.max_file_diff_bytes as nat),
        ),
        reported(config, "max_tool_calls"@) == Some(text::decimal(config.max_tool_calls as nat)),
        reported(config, "max_tool_bytes"@) == Some(text::decimal(config.max_tool_bytes as nat)),
        reported(config, "subject_max_len"@) == Some(text::decimal(config.subject_max_len as nat)),
        reported(config, "candidates"@) == Some(text::decimal(config.candidates as nat)),
        reported(config, "exclude"@) == Some(text::join(config.exclude, ", "@)),
        config.conventional_commits ==> reported(config, "conventional_commits"@) == Some("true"@),
        !config.conventional_commits ==> reported(config, "conventional_commits"@) == Some(
            "false"@,
        ),
        config.body ==> reported(config, "body"@) == Some("true"@),
        !config.body ==> reported(config, "body"@) == Some("false"@),
        config.show_thinking ==> reported(config, "show_thinking"@) == Some("true"@),
        !config.show_thinking ==> reported(config, "show_thinking"@) == Some("false"@),
{
    lemma_all_keys_differ();
}

/// A value is read as the type of its key: as a number with or without a sign, as a truth
/// value, as a list, or as the text that it is.
pub proof fn law_values_are_read_as_their_type(key: Seq<char>, value: Seq<char>)
    ensures
        key == "model"@ || key == "endpoint"@ || key == "api_key_file"@ || key == "endpoint_file"@
            ==> parsed_setting(key, value) == Some(SettingView::Text(value)),
        key == "exclude"@ ==> parsed_setting(key, value) == Some(
            SettingView::List(listed(value)),
        ),
        key == "context_commits"@ || key == "max_diff_bytes"@ || key == "max_file_diff_bytes"@
            || key == "max_tool_calls"@ || key == "max_tool_bytes"@ || key == "subject_max_len"@
            || key == "candidates"@ ==> (match text::parse_signed(value) {
            Some(n) => parsed_setting(key, value) == Some(SettingView::Number(n)),
            None => parsed_setting(key, value) is None,
        }),
        key == "conventional_commits"@ || key == "body"@ || key == "show_thinking"@ ==> parsed_setting(
            key,
            "true"@,
        ) == Some(SettingView::Flag(true)) && parsed_setting(key, "false"@) == Some(
            SettingView::Flag(false),
        ),
{
    lemma_all_keys_differ();
    reveal_strlit("true");
    reveal_strlit("false");
    assert("true"@.len() != "false"@.len());
}

/// The user's config lies below the directory for such files, whatever the home is; where
/// no directory is set for them it is the usual one in the home, and without a home the one
/// of that name here.
pub proof fn law_user_file_lies_below_its_directory(
    base: Seq<char>,
    home: Seq<char>,
    other: Option<Seq<char>>,
)
    ensures
        user_file(Some(base), other) == user_file(Some(base), None),
        text::starts_with(user_file(Some(base), other), base),
        text::has_end(user_file(Some(base), other), "auto-commit/config.toml"@),
        user_file(None, Some(home)) == user_file(Some(join_path(home, ".config"@)), other),
        user_file(None, None) == user_file(Some(".config"@), other),
        text::starts_with(user_file(None, Some(home)), home),
{
    let below = "auto-commit/config.toml"@;
    law_paths_are_joined(base, below, below);
    law_paths_are_joined(home, below, ".config"@);
    let inner = join_path(home, ".config"@);
    law_paths_are_joined(inner, below, below);
    let all = join_path(inner, below);
    assert(all.take(inner.len() as int) == inner);
    assert(all.take(home.len() as int) =~= inner.take(home.len() as int));
}

/// An error says nothing but what it is about, and in the same words for every file, key
/// and value.
pub proof fn law_errors_say_no_more(error: ConfigError)
    ensures
        error matches ConfigError::Read { path, reason } ==> config_error_text(error).len()
            == path@.len() + reason@.len() + 17,
        error matches ConfigError::Parse { path, reason } ==> config_error_text(error) == path@
            + " is not valid TOML: "@ + reason@,
        error matches ConfigError::Write { path, reason } ==> config_error_text(error).len()
            == path@.len() + reason@.len() + 18,
        error matches ConfigError::UnknownKey(key) ==> config_error_text(error)
            == "no such setting: "@ + key@,
        error matches ConfigError::BadValue { key, value } ==> config_error_text(error) == key@
            + " does not accept the value "@ + outside::debug_quoted(value@),
{
    reveal_strlit("could not read ");
    reveal_strlit("could not write ");
    reveal_strlit(": ");
}

} // verus!
