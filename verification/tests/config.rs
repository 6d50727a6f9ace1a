//! The layers of the configuration, and one setting at a time.

use auto_commit::cli::GlobalArgs;
use auto_commit::config::{
    env_any, is_key, joined_path, parse_value, read_secret, show_path, user_path,
    saving, written_note, Config, ConfigError, Environment, Layer, LayerFile, Saving, Setting,
    TextFile,
};

fn env(endpoint: &str, base: &str, model: &str) -> Environment {
    let var = |value: &str| if value.is_empty() { None } else { Some(value.to_owned()) };
    Environment { endpoint: var(endpoint), openai_base_url: var(base), model: var(model) }
}

fn model_layer(name: &str) -> Result<Option<Layer>, ConfigError> {
    Ok(Some(Layer { model: Some(name.to_owned()), ..Layer::default() }))
}

#[test]
fn the_defaults_hold_where_nothing_is_said() {
    let config =
        Config::load(Ok(None), Ok(None), Ok(None), &env("", "", ""), &GlobalArgs::default()).unwrap();
    assert_eq!(config.model, "gpt-5.6-luna");
    assert_eq!(config.endpoint, "https://api.openai.com/v1");
    assert_eq!(config.context_commits, 10);
    assert_eq!(config.max_diff_bytes, 60_000);
    assert_eq!(config.max_file_diff_bytes, 12_000);
    assert_eq!(config.max_tool_calls, 2);
    assert_eq!(config.max_tool_bytes, 24_000);
    assert_eq!(config.exclude.len(), 12);
    assert_eq!(config.exclude[11], "dist/**");
    assert_eq!(config.subject_max_len, 72);
    assert_eq!(config.candidates, 1);
    assert!(config.body && !config.conventional_commits && !config.show_thinking);
}

#[test]
fn each_layer_overrides_what_it_states() {
    let none = env("", "", "");
    let flags = GlobalArgs::default();
    let load = |system, user, repository, env: &Environment, args: &GlobalArgs| {
        Config::load(system, user, repository, env, args).unwrap().model
    };
    assert_eq!(load(model_layer("s"), Ok(None), Ok(None), &none, &flags), "s");
    assert_eq!(load(model_layer("s"), model_layer("u"), Ok(None), &none, &flags), "u");
    assert_eq!(load(model_layer("s"), model_layer("u"), model_layer("r"), &none, &flags), "r");
    let named = env("", "", " e ");
    assert_eq!(load(Ok(None), model_layer("u"), model_layer("r"), &named, &flags), "e");
    let given = GlobalArgs { model: Some("f".to_owned()), ..GlobalArgs::default() };
    assert_eq!(load(Ok(None), Ok(None), model_layer("r"), &named, &given), "f");
    let quiet = Layer { candidates: Some(3), body: Some(false), ..Layer::default() };
    let config =
        Config::load(model_layer("s"), Ok(Some(quiet)), Ok(None), &none, &flags).unwrap();
    assert_eq!((config.model.as_str(), config.candidates, config.body), ("s", 3, false));
}

#[test]
fn flags_turn_settings_on() {
    let args = GlobalArgs {
        show_thinking: true,
        conventional: true,
        candidates: Some(4),
        context_commits: Some(7),
        max_tool_calls: Some(0),
        ..GlobalArgs::default()
    };
    let off = Layer {
        show_thinking: Some(false),
        conventional_commits: Some(false),
        ..Layer::default()
    };
    let config =
        Config::load(Ok(Some(off)), Ok(None), Ok(None), &env("", "", ""), &args).unwrap();
    assert!(config.show_thinking && config.conventional_commits);
    assert_eq!((config.candidates, config.context_commits, config.max_tool_calls), (4, 7, 0));
}

#[test]
fn a_named_endpoint_replaces_an_endpoint_file() {
    let layer = || {
        Ok(Some(Layer {
            endpoint: Some("layer".to_owned()),
            endpoint_file: Some("/secret".to_owned()),
            ..Layer::default()
        }))
    };
    let flags = GlobalArgs::default();
    let kept = Config::load(Ok(None), layer(), Ok(None), &env("", " ", ""), &flags).unwrap();
    assert_eq!(kept.endpoint_file, Some("/secret".to_owned()));
    assert_eq!(kept.get("endpoint").unwrap(), "<read from /secret>");
    assert_eq!(kept.endpoint(Ok(" https://x/ \n".to_owned())).unwrap(), "https://x/");
    let env_named = env("", "base", "");
    let named = Config::load(Ok(None), layer(), Ok(None), &env_named, &flags).unwrap();
    assert_eq!(named.endpoint_file, None);
    assert_eq!(named.get("endpoint").unwrap(), "base");
    let first = env("own", "base", "");
    let named = Config::load(Ok(None), layer(), Ok(None), &first, &flags).unwrap();
    assert_eq!(named.endpoint(Err("no".to_owned())).unwrap(), "own");
    let given = GlobalArgs { endpoint: Some("flag".to_owned()), ..GlobalArgs::default() };
    let named = Config::load(Ok(None), layer(), Ok(None), &first, &given).unwrap();
    assert_eq!(named.endpoint, "flag");
}

#[test]
fn the_first_file_that_fails_ends_the_load() {
    let none = env("", "", "");
    let flags = GlobalArgs::default();
    let broken = |path: &str| Layer::read(path, LayerFile::Invalid("line 1".to_owned()));
    match Config::load(Ok(None), broken("/u"), broken("/r"), &none, &flags) {
        Err(error) => assert_eq!(error.message(), "/u is not valid TOML: line 1"),
        Ok(_) => panic!("a broken file was taken"),
    }
    match Layer::read("/p", LayerFile::Unreadable("denied".to_owned())) {
        Err(error) => assert_eq!(error.message(), "could not read /p: denied"),
        Ok(_) => panic!("nothing was read"),
    }
    assert!(Layer::read("/p", LayerFile::Missing).unwrap().is_none());
    assert!(Layer::read("/p", LayerFile::Valid(Layer::default())).unwrap().is_some());
    let error = ConfigError::Write { path: "/p".to_owned(), reason: "full".to_owned() };
    assert_eq!(error.message(), "could not write /p: full");
}

#[test]
fn a_merge_takes_what_is_stated() {
    let mut layer = Layer { model: Some("a".to_owned()), body: Some(true), ..Layer::default() };
    layer.merge(Layer { body: Some(false), candidates: Some(2), ..Layer::default() });
    assert_eq!(layer.model, Some("a".to_owned()));
    assert_eq!(layer.body, Some(false));
    assert_eq!(layer.candidates, Some(2));
    layer.merge(Layer::default());
    assert_eq!(layer.candidates, Some(2));
}

#[test]
fn a_key_comes_from_its_file_or_from_the_environment() {
    let mut config = Config::default();
    let vars = vec![None, Some("  ".to_owned()), Some(" k ".to_owned()), Some("l".to_owned())];
    assert_eq!(env_any(&vars), Some("k".to_owned()));
    assert_eq!(env_any(&Vec::new()), None);
    assert_eq!(config.api_key(Err("unused".to_owned()), &vars).unwrap(), "k");
    match config.api_key(Ok("unused".to_owned()), &vec![None]) {
        Err(error) => assert_eq!(
            error.message(),
            "no API key. Set api_key_file in your config, or export AUTO_COMMIT_API_KEY. \
             A local endpoint that wants no key still needs one of these set to any value"
        ),
        Ok(_) => panic!("there is no key"),
    }
    config.api_key_file = Some("/key".to_owned());
    assert_eq!(config.api_key(Ok("\tsecret\n".to_owned()), &vars).unwrap(), "secret");
    assert!(matches!(
        config.api_key(Err("gone".to_owned()), &vars),
        Err(ConfigError::Read { path, reason }) if path == "/key" && reason == "gone"
    ));
    assert_eq!(read_secret("/p", Ok(" x ".to_owned())).unwrap(), "x");
}

#[test]
fn paths_are_found_below_the_usual_directories() {
    assert_eq!(user_path(Some("/xdg"), Some("/home/me")), "/xdg/auto-commit/config.toml");
    assert_eq!(user_path(None, Some("/home/me")), "/home/me/.config/auto-commit/config.toml");
    assert_eq!(user_path(None, None), ".config/auto-commit/config.toml");
    assert_eq!(joined_path("", "a"), "a");
    assert_eq!(joined_path("b/", "a"), "b/a");
    assert_eq!(show_path(None), "");
    assert_eq!(show_path(Some("/p")), "/p");
}

#[test]
fn every_setting_is_reported() {
    let config = Config {
        exclude: vec!["a".to_owned(), "b".to_owned()],
        api_key_file: Some("/key".to_owned()),
        ..Config::default()
    };
    let lines = config.report();
    assert_eq!(lines.len(), 15);
    assert_eq!(lines[0], "model = gpt-5.6-luna");
    assert_eq!(lines[2], "api_key_file = /key");
    assert_eq!(lines[3], "endpoint_file = ");
    assert_eq!(lines[5], "max_diff_bytes = 60000");
    assert_eq!(lines[9], "exclude = a, b");
    assert_eq!(lines[14], "show_thinking = false");
    for key in Config::keys() {
        assert!(config.get(&key).is_ok(), "{key}");
        assert!(is_key(&key));
    }
    assert!(!is_key("Model"));
    match config.get("nope") {
        Err(error) => assert_eq!(error.message(), "no such setting: nope"),
        Ok(_) => panic!("there is no such setting"),
    }
    assert_eq!(written_note("body", "/p"), "body written to /p");
}

#[test]
fn a_value_has_the_type_of_its_key() {
    assert!(matches!(parse_value("model", "7").unwrap(), Setting::Text(text) if text == "7"));
    assert!(matches!(parse_value("body", "false").unwrap(), Setting::Flag(false)));
    assert!(matches!(parse_value("show_thinking", "true").unwrap(), Setting::Flag(true)));
    assert!(matches!(parse_value("candidates", "+3").unwrap(), Setting::Number(3)));
    assert!(matches!(
        parse_value("candidates", "-9223372036854775808").unwrap(),
        Setting::Number(i64::MIN)
    ));
    assert!(matches!(
        parse_value("exclude", " a ,b").unwrap(),
        Setting::List(items) if items == vec!["a".to_owned(), "b".to_owned()]
    ));
    for (key, value) in [
        ("body", "yes"),
        ("show_thinking", "1"),
        ("candidates", "three"),
        ("candidates", "9223372036854775808"),
        ("subject_max_len", ""),
    ] {
        match parse_value(key, value) {
            Err(error) => {
                assert_eq!(error.message(), format!("{key} does not accept the value {value:?}"))
            }
            Ok(_) => panic!("{key} took {value}"),
        }
    }
}

#[test]
fn setting_one_key_leaves_the_others() {
    let file = TextFile::Read("model = \"a\"\nbody = true\n".to_owned());
    let text = auto_commit::config::set("body", "false", "/p", &file).unwrap();
    let table: toml::Table = toml::from_str(&text).unwrap();
    assert_eq!(table.len(), 2);
    assert_eq!(table.get("model").and_then(|value| value.as_str()), Some("a"));
    assert_eq!(table.get("body").and_then(|value| value.as_bool()), Some(false));
    let file = TextFile::Read(text);
    let text = auto_commit::config::set("exclude", "x, y", "/p", &file).unwrap();
    let table: toml::Table = toml::from_str(&text).unwrap();
    assert_eq!(table.len(), 3);
    let items = table.get("exclude").and_then(|value| value.as_array()).unwrap();
    assert_eq!(items[1].as_str(), Some("y"));
    let text = auto_commit::config::set("candidates", "3", "/p", &TextFile::Missing).unwrap();
    assert_eq!(text, "candidates = 3\n");
}

#[test]
fn what_was_written_is_read_back() {
    let odd = [
        "",
        " ",
        "plain",
        "it's \"quoted\"",
        "\"\"\"\"\"",
        "'''\"\"\"\n\"\"\"\"\"",
        "\n\nlines\r\nand \ttabs\n",
        "back\\slash\\\nend\\",
        "\u{0}\u{7f}\u{1b}\u{feff}\u{2603}",
        "key = [1]\n# comment",
    ];
    let mut file = TextFile::Missing;
    for value in odd {
        let text = auto_commit::config::set("model", value, "/p", &file).unwrap();
        let text = auto_commit::config::set("exclude", value, "/p", &TextFile::Read(text)).unwrap();
        let table: toml::Table = toml::from_str(&text).unwrap();
        assert_eq!(table.len(), 2);
        assert_eq!(table.get("model").and_then(|value| value.as_str()), Some(value));
        let items = table.get("exclude").and_then(|value| value.as_array()).unwrap();
        assert_eq!(items.len(), 1);
        assert_eq!(items[0].as_str(), Some(value.trim()));
        file = TextFile::Read(text);
    }
    let least = i64::MIN.to_string();
    let text = auto_commit::config::set("candidates", &least, "/p", &file).unwrap();
    let table: toml::Table = toml::from_str(&text).unwrap();
    assert_eq!(table.get("candidates").and_then(|value| value.as_integer()), Some(i64::MIN));
}

#[test]
fn dates_and_tables_survive_a_setting() {
    let held = "born = 1979-05-27T07:32:00.5-07:00\nat = 07:32\nday = 2024-02-29\n\
                list = [{ a = 1 }, 2.5]\n\n[deep.er]\nx = nan\n\n[[rows]]\ny = 1\n";
    let text = auto_commit::config::set("model", "m", "/p", &TextFile::Read(held.to_owned())).unwrap();
    let table: toml::Table = toml::from_str(&text).unwrap();
    assert_eq!(table.len(), 7);
    assert_eq!(table["born"].to_string(), "1979-05-27T07:32:00.5-07:00");
    assert_eq!(table["at"].to_string(), "07:32");
    assert_eq!(table["rows"][0]["y"].as_integer(), Some(1));
    let held = "a = 1e300\nb = -0.0\nc = -inf\nd = 5e-324\ne = 0.1\nf = 1.0\n\
                g = [1, \"x\", 2.5, 2024-02-29]\nh = 2024-02-29 07:32:00.000Z\ni = 07:32:60\n";
    let before: toml::Table = toml::from_str(held).unwrap();
    let text = auto_commit::config::set("body", "true", "/p", &TextFile::Read(held.to_owned())).unwrap();
    let mut after: toml::Table = toml::from_str(&text).unwrap();
    assert_eq!(after.remove("body").and_then(|value| value.as_bool()), Some(true));
    assert_eq!(after.to_string(), before.to_string());
    let bad = TextFile::Read("day = 2024-13-01\n".to_owned());
    assert!(matches!(
        auto_commit::config::set("model", "m", "/p", &bad),
        Err(ConfigError::Parse { .. })
    ));
}

#[test]
fn printing_a_setting_writes_nothing() {
    let print = GlobalArgs { print: true, ..GlobalArgs::default() };
    assert!(matches!(saving("a".to_owned(), &print), Saving::Print(text) if text == "a"));
    let plain = GlobalArgs::default();
    assert!(matches!(saving("a".to_owned(), &plain), Saving::Write(text) if text == "a"));
}

#[test]
fn what_cannot_be_set_is_refused() {
    let missing = TextFile::Missing;
    assert!(matches!(
        auto_commit::config::set("nope", "1", "/p", &missing),
        Err(ConfigError::UnknownKey(key)) if key == "nope"
    ));
    assert!(matches!(
        auto_commit::config::set("body", "maybe", "/p", &missing),
        Err(ConfigError::BadValue { key, value }) if key == "body" && value == "maybe"
    ));
    let broken = TextFile::Read("model = ".to_owned());
    assert!(matches!(
        auto_commit::config::set("body", "maybe", "/p", &broken),
        Err(ConfigError::Parse { path, reason }) if path == "/p" && !reason.is_empty()
    ));
    let unreadable = TextFile::Unreadable("denied".to_owned());
    assert!(matches!(
        auto_commit::config::set("body", "true", "/p", &unreadable),
        Err(ConfigError::Read { path, reason }) if path == "/p" && reason == "denied"
    ));
}
