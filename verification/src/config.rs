//! The agent's settings, read from the first section of a sectioned
//! key/value file.

use vstd::prelude::*;

verus! {

/// Base URL of the metrics service where the file names none.
pub const DEFAULT_APIBASE: &'static str = "https://api.mackerelio.com/";

/// Key under which the file gives the API key.
pub const APIKEY_KEY: &'static str = "apikey";

/// Key under which the file may give the base URL.
pub const APIBASE_KEY: &'static str = "apibase";

/// Settings of the agent. They are made once at startup and only read
/// afterwards.
#[derive(Debug, Clone, PartialEq, Eq)]
pub struct Config {
    pub api_key: String,
    pub apibase: String,
}

/// A `Config` as plain text.
pub ghost struct ConfigView {
    pub api_key: Seq<char>,
    pub apibase: Seq<char>,
}

impl View for Config {
    type V = ConfigView;

    open spec fn view(&self) -> ConfigView {
        ConfigView { api_key: self.api_key@, apibase: self.apibase@ }
    }
}

/// Why no `Config` could be made. Either one stops the agent at startup.
#[derive(Debug, Clone, Copy, PartialEq, Eq, Structural)]
pub enum ConfigError {
    /// The file holds no section at all.
    NoSection,
    /// The first section gives no API key.
    MissingApiKey,
}

/// Key/value pairs by their text.
pub open spec fn pairs_view(v: Seq<(String, String)>) -> Seq<(Seq<char>, Seq<char>)> {
    Seq::new(v.len(), |i: int| (v[i].0@, v[i].1@))
}

/// The value of the last pair of `entries` whose key is `key`.
pub open spec fn last_value(entries: Seq<(Seq<char>, Seq<char>)>, key: Seq<char>) -> Option<
    Seq<char>,
>
    decreases entries.len(),
{
    if entries.len() == 0 {
        None
    } else if entries.last().0 == key {
        Some(entries.last().1)
    } else {
        last_value(entries.drop_last(), key)
    }
}

/// The settings that the pairs of a section give: the API key must be there,
/// the base URL falls back to `DEFAULT_APIBASE`.
pub open spec fn section_config(entries: Seq<(Seq<char>, Seq<char>)>) -> Result<
    ConfigView,
    ConfigError,
> {
    match last_value(entries, APIKEY_KEY@) {
        None => Err(ConfigError::MissingApiKey),
        Some(api_key) => Ok(
            ConfigView {
                api_key,
                apibase: match last_value(entries, APIBASE_KEY@) {
                    Some(apibase) => apibase,
                    None => DEFAULT_APIBASE@,
                },
            },
        ),
    }
}

/// The settings that a file's sections give: those of its first section.
pub open spec fn sections_config(sections: Seq<Seq<(Seq<char>, Seq<char>)>>) -> Result<
    ConfigView,
    ConfigError,
> {
    if sections.len() == 0 {
        Err(ConfigError::NoSection)
    } else {
        section_config(sections[0])
    }
}

/// Whether `result` is the outcome `expected`, the settings taken by view.
pub open spec fn config_result_is(
    result: Result<Config, ConfigError>,
    expected: Result<ConfigView, ConfigError>,
) -> bool {
    match result {
        Ok(config) => expected == Ok::<ConfigView, ConfigError>(config@),
        Err(error) => expected == Err::<ConfigView, ConfigError>(error),
    }
}

/// `last_value` gives the value of a pair with the key `key` after which no
/// pair has that key, and nothing where no pair has it.
pub proof fn lemma_last_value(entries: Seq<(Seq<char>, Seq<char>)>, key: Seq<char>)
    ensures
        match last_value(entries, key) {
            Some(value) => exists|i: int|
                0 <= i < entries.len() && #[trigger] entries[i] == (key, value) && forall|j: int|
                    i < j < entries.len() ==> (#[trigger] entries[j]).0 != key,
            None => forall|i: int| 0 <= i < entries.len() ==> (#[trigger] entries[i]).0 != key,
        },
    decreases entries.len(),
{
    if entries.len() > 0 {
        let head = entries.drop_last();
        let n = entries.len() - 1;
        lemma_last_value(head, key);
        if entries.last().0 == key {
            assert(entries[n] == (key, entries.last().1));
        } else {
            match last_value(head, key) {
                Some(value) => {
                    let i = choose|i: int|
                        0 <= i < head.len() && #[trigger] head[i] == (key, value) && forall|j: int|
                            i < j < head.len() ==> (#[trigger] head[j]).0 != key;
                    assert(entries[i] == (key, value));
                    assert forall|j: int| i < j < entries.len() implies (#[trigger] entries[j]).0
                        != key by {
                        if j < n {
                            assert(head[j].0 != key);
                        }
                    }
                },
                None => {
                    assert forall|i: int| 0 <= i < entries.len() implies (#[trigger] entries[i]).0
                        != key by {
                        if i < n {
                            assert(head[i].0 != key);
                        }
                    }
                },
            }
        }
    }
}

/// A section that gives an API key and names no base URL is configured with
/// the default base URL.
pub proof fn lemma_apibase_defaults(entries: Seq<(Seq<char>, Seq<char>)>)
    requires
        exists|i: int| 0 <= i < entries.len() && (#[trigger] entries[i]).0 == APIKEY_KEY@,
        forall|i: int| 0 <= i < entries.len() ==> (#[trigger] entries[i]).0 != APIBASE_KEY@,
    ensures
        section_config(entries) is Ok,
        section_config(entries)->Ok_0.apibase == DEFAULT_APIBASE@,
        last_value(entries, APIKEY_KEY@) == Some(section_config(entries)->Ok_0.api_key),
{
    lemma_last_value(entries, APIKEY_KEY@);
    lemma_last_value(entries, APIBASE_KEY@);
}

/// The parsed file of the `ini` crate, `ini::Ini`. Nothing is claimed of what
/// is inside it; `ini_sections` names what it holds.
#[verifier::external_type_specification]
#[verifier::external_body]
pub struct ExIni(ini::Ini);

/// What a parsed file holds: its sections in the order in which `Ini::iter`
/// walks them, each as its key/value pairs in the order in which
/// `Properties::iter` walks them.
pub uninterp spec fn ini_sections(ini: ini::Ini) -> Seq<Seq<(Seq<char>, Seq<char>)>>;

/// The pairs of the first section that `Ini::iter` yields, copied out through
/// `Properties::iter`. Trusted: the result is `None` exactly when the file
/// holds no section, and otherwise holds the first section's pairs in order.
#[verifier::external_body]
fn first_section(ini: &ini::Ini) -> (entries: Option<Vec<(String, String)>>)
    ensures
        entries is None <==> ini_sections(*ini).len() == 0,
        entries matches Some(v) ==> pairs_view(v@) == ini_sections(*ini)[0],
{
    ini.iter().next().map(
        |(_, properties)| properties.iter().map(|(k, v)| (k.to_owned(), v.to_owned())).collect(),
    )
}

/// Looks `key` up in `entries`; of several pairs with that key the last
/// counts.
fn find_last(entries: &Vec<(String, String)>, key: &str) -> (value: Option<String>)
    ensures
        match value {
            Some(v) => last_value(pairs_view(entries@), key@) == Some(v@),
            None => last_value(pairs_view(entries@), key@) is None,
        },
{
    let wanted = key.to_owned();
    let ghost pairs = pairs_view(entries@);
    let mut found: Option<usize> = None;
    let mut i: usize = 0;
    while i < entries.len()
        invariant
            i <= entries.len(),
            pairs == pairs_view(entries@),
            wanted@ == key@,
            match found {
                Some(k) => k < i && last_value(pairs.take(i as int), key@) == Some(pairs[k as int].1),
                None => last_value(pairs.take(i as int), key@) is None,
            },
        decreases entries.len() - i,
    {
        assert(pairs.take(i + 1).drop_last() =~= pairs.take(i as int));
        if entries[i].0 == wanted {
            found = Some(i);
        }
        i += 1;
    }
    assert(pairs.take(i as int) =~= pairs);
    match found {
        Some(k) => Some(entries[k].1.clone()),
        None => None,
    }
}

impl Config {
    /// Settings with nothing filled in.
    pub fn new() -> (config: Config)
        ensures
            config.api_key@ == Seq::<char>::empty(),
            config.apibase@ == Seq::<char>::empty(),
    {
        Config { api_key: String::new(), apibase: String::new() }
    }

    /// The settings that the key/value pairs of one section give. The API key
    /// is required; the base URL is `DEFAULT_APIBASE` unless the section
    /// names one. Of several pairs with one key the last counts.
    pub fn from_entries(entries: &Vec<(String, String)>) -> (result: Result<Config, ConfigError>)
        ensures
            config_result_is(result, section_config(pairs_view(entries@))),
    {
        let mut config = Config::new();
        match find_last(entries, APIKEY_KEY) {
            None => {
                return Err(ConfigError::MissingApiKey);
            },
            Some(api_key) => {
                config.api_key = api_key;
            },
        }
        config.apibase =
        match find_last(entries, APIBASE_KEY) {
            Some(apibase) => apibase,
            None => DEFAULT_APIBASE.to_owned(),
        };
        Ok(config)
    }

    /// The settings that a parsed file gives: those of its first section.
    pub fn from_ini(ini: ini::Ini) -> (result: Result<Config, ConfigError>)
        ensures
            config_result_is(result, sections_config(ini_sections(ini))),
    {
        match first_section(&ini) {
            None => Err(ConfigError::NoSection),
            Some(entries) => Config::from_entries(&entries),
        }
    }
}

} // verus!
