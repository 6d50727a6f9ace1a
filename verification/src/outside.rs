//! What the crate takes from elsewhere, with what it relies on. Nothing in this
//! file is proved: each contract restates what the code behind it documents.

use crate::config::{self, Setting, SettingView};
use globset::Error as GlobError;
use globset::{Glob, GlobSet, GlobSetBuilder};
use regex::Error as RegexError;
use regex::{Regex, RegexBuilder};
use toml::de::Error as TomlError;
use vstd::prelude::*;

verus! {

// ---------------------------------------------------------------------------
// Glob patterns
// ---------------------------------------------------------------------------

/// One parsed glob pattern.
#[verifier::external_type_specification]
#[verifier::external_body]
pub struct ExGlob(globset::Glob);

/// The patterns that a set is built from.
#[verifier::external_type_specification]
#[verifier::external_body]
pub struct ExGlobSetBuilder(globset::GlobSetBuilder);

/// Patterns that are matched together.
#[verifier::external_type_specification]
#[verifier::external_body]
pub struct ExGlobSet(globset::GlobSet);

/// Why a pattern, or patterns together, are not valid.
#[verifier::external_type_specification]
#[verifier::external_body]
pub struct ExGlobError(GlobError);

/// What `Glob::new` makes of a pattern.
pub uninterp spec fn glob_parsed(pattern: Seq<char>) -> Result<Glob, GlobError>;

/// An error as `globset::Error`'s `Display` writes it.
pub uninterp spec fn glob_error_shown(error: GlobError) -> Seq<char>;

/// The globs that were added to a builder, in order.
pub uninterp spec fn builder_globs(builder: GlobSetBuilder) -> Seq<Glob>;

/// What `GlobSetBuilder::build` makes of globs.
pub uninterp spec fn globs_built(globs: Seq<Glob>) -> Result<GlobSet, GlobError>;

/// The globs that a set holds, in order.
pub uninterp spec fn set_globs(set: GlobSet) -> Seq<Glob>;

/// Whether one glob matches a path.
pub uninterp spec fn glob_matches(glob: Glob, path: Seq<char>) -> bool;

/// `Glob::new` parses a pattern. The glob, or the error, depends on the pattern
/// alone.
#[verifier::external_body]
pub(crate) fn parse_glob(pattern: &str) -> (r: Result<Glob, GlobError>)
    ensures
        r == glob_parsed(pattern@),
{
    Glob::new(pattern)
}

/// `globset::Error`'s `Display` says what is wrong. The text depends on the error
/// alone.
#[verifier::external_body]
pub(crate) fn glob_error_text(error: &GlobError) -> (r: String)
    ensures
        r@ == glob_error_shown(*error),
{
    error.to_string()
}

/// `GlobSetBuilder::new` makes a builder without patterns.
#[verifier::external_body]
pub(crate) fn new_builder() -> (r: GlobSetBuilder)
    ensures
        builder_globs(r) == Seq::<Glob>::empty(),
{
    GlobSetBuilder::new()
}

/// `GlobSetBuilder::add` adds one pattern at the end.
#[verifier::external_body]
pub(crate) fn add_glob(builder: &mut GlobSetBuilder, glob: Glob)
    ensures
        builder_globs(*final(builder)) == builder_globs(*old(builder)).push(glob),
{
    builder.add(glob);
}

/// `GlobSetBuilder::build` makes a set of the patterns that were added. The set, or
/// the error, depends on those patterns alone; a set that comes back holds them, and
/// without patterns one always comes back.
#[verifier::external_body]
pub(crate) fn build_set(builder: &GlobSetBuilder) -> (r: Result<GlobSet, GlobError>)
    ensures
        r == globs_built(builder_globs(*builder)),
        r matches Ok(set) ==> set_globs(set) == builder_globs(*builder),
        r is Err ==> builder_globs(*builder).len() > 0,
{
    builder.build()
}

/// `GlobSet::is_match` tells whether any glob of the set matches the path.
#[verifier::external_body]
pub(crate) fn set_is_match(set: &GlobSet, path: &str) -> (r: bool)
    ensures
        r == (exists|i: int|
            0 <= i < set_globs(*set).len() && #[trigger] glob_matches(set_globs(*set)[i], path@)),
{
    set.is_match(path)
}

// ---------------------------------------------------------------------------
// Regular expressions
// ---------------------------------------------------------------------------

/// One compiled regular expression.
#[verifier::external_type_specification]
#[verifier::external_body]
pub struct ExRegex(regex::Regex);

/// Why a pattern is not a regular expression.
#[verifier::external_type_specification]
#[verifier::external_body]
pub struct ExRegexError(RegexError);

/// What `RegexBuilder::build` makes of a pattern under two options.
pub uninterp spec fn regex_built(
    pattern: Seq<char>,
    case_insensitive: bool,
    size_limit: usize,
) -> Result<Regex, RegexError>;

/// An error as `regex::Error`'s `Display` writes it.
pub uninterp spec fn regex_error_shown(error: RegexError) -> Seq<char>;

/// Whether an expression matches somewhere in a text.
pub uninterp spec fn regex_matches(regex: Regex, haystack: Seq<char>) -> bool;

/// `RegexBuilder::build` compiles a pattern under the options that
/// `case_insensitive` and `size_limit` set. The expression, or the error, depends on
/// the pattern and the options alone.
#[verifier::external_body]
pub(crate) fn build_regex(pattern: &str, case_insensitive: bool, size_limit: usize) -> (r: Result<
    Regex,
    RegexError,
>)
    ensures
        r == regex_built(pattern@, case_insensitive, size_limit),
{
    RegexBuilder::new(pattern)
        .case_insensitive(case_insensitive)
        .size_limit(size_limit)
        .build()
}

/// `regex::Error`'s `Display` says what is wrong. The text depends on the error
/// alone.
#[verifier::external_body]
pub(crate) fn regex_error_text(error: &RegexError) -> (r: String)
    ensures
        r@ == regex_error_shown(*error),
{
    error.to_string()
}

/// `Regex::is_match` tells whether the expression matches anywhere in the text.
#[verifier::external_body]
pub(crate) fn regex_is_match(regex: &Regex, haystack: &str) -> (r: bool)
    ensures
        r == regex_matches(*regex, haystack@),
{
    regex.is_match(haystack)
}

// ---------------------------------------------------------------------------
// Quoting
// ---------------------------------------------------------------------------

/// A text as `{:?}` writes it: in double quotes, with escapes.
pub uninterp spec fn debug_quoted(s: Seq<char>) -> Seq<char>;

/// Formatting a string with `{:?}` quotes and escapes its text. The result
/// depends on the text alone.
#[verifier::external_body]
pub(crate) fn quote(s: &str) -> (r: String)
    ensures
        r@ == debug_quoted(s@),
{
    format!("{s:?}")
}

// ---------------------------------------------------------------------------
// JSON
// ---------------------------------------------------------------------------

/// A JSON value.
#[verifier::external_type_specification]
#[verifier::external_body]
pub struct ExJsonValue(serde_json::Value);

/// The members of a JSON object.
#[verifier::external_type_specification]
#[verifier::external_body]
#[verifier::reject_recursive_types(K)]
#[verifier::reject_recursive_types(V)]
pub struct ExJsonMap<K, V>(serde_json::Map<K, V>);

/// The value that `serde_json::from_str` reads from a text, if any.
pub uninterp spec fn json_parsed(source: Seq<char>) -> Option<serde_json::Value>;

/// The string that a value holds under a key.
pub uninterp spec fn json_text_at(value: serde_json::Value, key: Seq<char>) -> Option<Seq<char>>;

/// The unsigned number that a value holds under a key.
pub uninterp spec fn json_number_at(value: serde_json::Value, key: Seq<char>) -> Option<u64>;

/// A value as `Value`'s `Display` writes it.
pub uninterp spec fn json_shown(value: serde_json::Value) -> Seq<char>;

/// The array that holds these values.
pub uninterp spec fn json_array_of(values: Seq<serde_json::Value>) -> serde_json::Value;

/// What an object holds under each key.
pub uninterp spec fn object_entries(object: serde_json::Map<String, serde_json::Value>) -> Map<Seq<char>, serde_json::Value>;

/// The text that `serde_json::to_string` writes for an object, if any.
pub uninterp spec fn object_rendered(object: serde_json::Map<String, serde_json::Value>) -> Option<Seq<char>>;

/// `serde_json::from_str` reads a value from a text, or fails. Which it does, and
/// the value, depend on the text alone.
#[verifier::external_body]
pub(crate) fn parse_json(source: &str) -> (r: Option<serde_json::Value>)
    ensures
        r == json_parsed(source@),
{
    serde_json::from_str(source).ok()
}

/// `serde_json::Map::new`, as a value, is an object without members, which is
/// written `{}`.
#[verifier::external_body]
pub(crate) fn empty_object() -> (r: serde_json::Value)
    ensures
        forall|key: Seq<char>| #[trigger] json_text_at(r, key) is None,
        forall|key: Seq<char>| #[trigger] json_number_at(r, key) is None,
        json_shown(r) == "{}"@,
{
    serde_json::Value::Object(serde_json::Map::new())
}

/// Indexing a value by a key gives the member of an object, of which
/// `Value::as_str` gives the string. Nothing comes back of a value that is no
/// object, and of a member that is missing or no string.
#[verifier::external_body]
pub(crate) fn json_str(value: &serde_json::Value, key: &str) -> (r: Option<String>)
    ensures
        crate::text::opt_text(r) == json_text_at(*value, key@),
{
    value[key].as_str().map(str::to_owned)
}

/// As [`json_str`], with `Value::as_u64` for an unsigned number.
#[verifier::external_body]
pub(crate) fn json_u64(value: &serde_json::Value, key: &str) -> (r: Option<u64>)
    ensures
        r == json_number_at(*value, key@),
{
    value[key].as_u64()
}

/// `Value`'s `Display` writes a value in one line. The text depends on the value
/// alone.
#[verifier::external_body]
pub(crate) fn show_json(value: &serde_json::Value) -> (r: String)
    ensures
        r@ == json_shown(*value),
{
    value.to_string()
}

/// `Value::Array` holds copies of the values, in order.
#[verifier::external_body]
pub(crate) fn array_of(values: &Vec<serde_json::Value>) -> (r: serde_json::Value)
    ensures
        r == json_array_of(values@),
{
    serde_json::Value::Array(values.clone())
}

/// `serde_json::Map::new` makes an object that holds nothing.
#[verifier::external_body]
pub(crate) fn new_object() -> (r: serde_json::Map<String, serde_json::Value>)
    ensures
        object_entries(r).dom() == Set::<Seq<char>>::empty(),
{
    serde_json::Map::new()
}

/// `serde_json::Map::insert` puts a value under a key, in the place of one that
/// was there, and leaves the other keys as they are.
#[verifier::external_body]
pub(crate) fn insert_member(
    object: &mut serde_json::Map<String, serde_json::Value>,
    key: &str,
    value: serde_json::Value,
)
    ensures
        object_entries(*final(object)) == object_entries(*old(object)).insert(key@, value),
{
    object.insert(key.to_owned(), value);
}

/// `serde_json::to_string` writes an object in one line. The text depends on the
/// object alone.
#[verifier::external_body]
pub(crate) fn render_object(object: &serde_json::Map<String, serde_json::Value>) -> (r: Option<String>)
    ensures
        crate::text::opt_text(r) == object_rendered(*object),
{
    serde_json::to_string(object).ok()
}

// ---------------------------------------------------------------------------
// TOML
// ---------------------------------------------------------------------------

/// A TOML table.
#[verifier::external_type_specification]
#[verifier::external_body]
#[verifier::reject_recursive_types(K)]
#[verifier::reject_recursive_types(V)]
pub struct ExTomlMap<K, V>(toml::map::Map<K, V>);

/// A TOML value.
#[verifier::external_type_specification]
#[verifier::external_body]
pub struct ExTomlValue(toml::Value);

/// Why a document is not TOML.
#[verifier::external_type_specification]
#[verifier::external_body]
pub struct ExTomlError(TomlError);

/// What `toml::from_str` makes of a document.
pub uninterp spec fn toml_parsed(source: Seq<char>) -> Result<toml::Table, TomlError>;

/// An error as `toml::de::Error`'s `Display` writes it.
pub uninterp spec fn toml_error_shown(error: TomlError) -> Seq<char>;

/// What a table holds under each key: a string as a text, a boolean as a flag, an
/// integer as a number, and an array of nothing but strings as a list. Any other
/// value stands for itself as its text: a float that is a number, a date, a time, or
/// an array of values that are none of them arrays or tables, as a flat one; and a
/// table, an array that holds an array or a table, or what holds a float that is no
/// number, as another one.
pub uninterp spec fn table_entries(table: toml::Table) -> Map<Seq<char>, SettingView>;

/// Whether every date and time in a table is one that TOML can write. One that is
/// not, such as a thirteenth month, can be put together field by field.
pub uninterp spec fn dates_valid(table: toml::Table) -> bool;

/// The document that `toml::to_string_pretty` writes for a table.
pub uninterp spec fn toml_rendered(table: toml::Table) -> Seq<char>;

/// `toml::from_str` parses a document. The table, or the error, depends on the
/// document alone. A date or time that is out of range is refused, so none is in
/// the table.
#[verifier::external_body]
pub(crate) fn parse_table(source: &str) -> (r: Result<toml::Table, TomlError>)
    ensures
        r == toml_parsed(source@),
        r matches Ok(table) ==> dates_valid(table),
{
    toml::from_str(source)
}

/// `toml::de::Error`'s `Display` says what is wrong, and where. The text depends on
/// the error alone.
#[verifier::external_body]
pub(crate) fn toml_error_text(error: &TomlError) -> (r: String)
    ensures
        r@ == toml_error_shown(*error),
{
    error.to_string()
}

/// `toml::Table::new` makes a table that holds nothing.
#[verifier::external_body]
pub(crate) fn new_table() -> (r: toml::Table)
    ensures
        table_entries(r).dom() == Set::<Seq<char>>::empty(),
        dates_valid(r),
{
    toml::Table::new()
}

/// `toml::Table::insert` puts a value under a key, in the place of one that was
/// there, and leaves the other keys as they are. No setting is a date or a time.
#[verifier::external_body]
pub(crate) fn insert_setting(table: &mut toml::Table, key: &str, value: &Setting)
    ensures
        table_entries(*final(table)) == table_entries(*old(table)).insert(key@, value@),
        dates_valid(*old(table)) ==> dates_valid(*final(table)),
{
    let value = match value {
        Setting::Text(text) => toml::Value::String(text.clone()),
        Setting::Flag(flag) => toml::Value::Boolean(*flag),
        Setting::Number(number) => toml::Value::Integer(*number),
        Setting::List(items) => {
            toml::Value::Array(items.iter().cloned().map(toml::Value::String).collect())
        }
    };
    table.insert(key.to_owned(), value);
}

/// `toml::to_string_pretty` writes a table as a document, which fails for a table
/// only where a date or a time in it is one that TOML cannot write. The document
/// depends on the table alone. Where the table holds no table, no array of arrays or
/// of tables, and no float that is no number, `toml::from_str` reads the same entries
/// out of the document: a key or a string that does not stand for itself is quoted
/// and escaped, and a number, a date or a time is written out in full. Of a table
/// with other values in it nothing of the kind is said: the parser refuses what is
/// nested too deeply.
#[verifier::external_body]
pub(crate) fn render_table(table: &toml::Table) -> (r: String)
    requires
        dates_valid(*table),
    ensures
        r@ == toml_rendered(*table),
        config::is_plain(table_entries(*table)) ==> config::reads_as(r@, table_entries(*table)),
{
    toml::to_string_pretty(table).expect("a TOML table always serializes")
}

} // verus!
