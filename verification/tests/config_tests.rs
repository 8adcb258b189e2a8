use ini::Ini;
use mackerel_agent::config::{Config, ConfigError, DEFAULT_APIBASE};

fn pair(key: &str, value: &str) -> (String, String) {
    (key.to_string(), value.to_string())
}

#[test]
fn new_config_is_blank() {
    let config = Config::new();
    assert_eq!(config.api_key, "");
    assert_eq!(config.apibase, "");
}

#[test]
fn default_apibase_is_the_public_endpoint() {
    assert_eq!(DEFAULT_APIBASE, "https://api.mackerelio.com/");
}

#[test]
fn apikey_alone_gets_the_default_apibase() {
    let config = Config::from_entries(&vec![pair("apikey", "X")]).unwrap();
    assert_eq!(config.api_key, "X");
    assert_eq!(config.apibase, "https://api.mackerelio.com/");
}

#[test]
fn apibase_in_the_section_is_used() {
    let entries = vec![pair("apikey", "X"), pair("apibase", "https://example.test/")];
    let config = Config::from_entries(&entries).unwrap();
    assert_eq!(config.api_key, "X");
    assert_eq!(config.apibase, "https://example.test/");
}

#[test]
fn missing_apikey_is_an_error() {
    let entries = vec![pair("apibase", "https://example.test/")];
    assert_eq!(Config::from_entries(&entries), Err(ConfigError::MissingApiKey));
    assert_eq!(Config::from_entries(&Vec::new()), Err(ConfigError::MissingApiKey));
}

#[test]
fn last_pair_of_a_key_counts() {
    let entries = vec![
        pair("apikey", "first"),
        pair("apibase", "https://one.test/"),
        pair("apikey", "second"),
        pair("apibase", "https://two.test/"),
    ];
    let config = Config::from_entries(&entries).unwrap();
    assert_eq!(config.api_key, "second");
    assert_eq!(config.apibase, "https://two.test/");
}

#[test]
fn keys_are_matched_exactly() {
    let entries = vec![pair("apikeys", "no"), pair("APIKEY", "no"), pair("api", "no")];
    assert_eq!(Config::from_entries(&entries), Err(ConfigError::MissingApiKey));
}

#[test]
fn other_keys_are_left_alone() {
    let entries = vec![pair("verbose", "true"), pair("apikey", "X"), pair("pidfile", "/run/a")];
    let config = Config::from_entries(&entries).unwrap();
    assert_eq!(config.api_key, "X");
    assert_eq!(config.apibase, DEFAULT_APIBASE);
}

#[test]
fn from_ini_reads_apikey_and_defaults_apibase() {
    let ini = Ini::load_from_str("apikey = X\n").unwrap();
    let config = Config::from_ini(ini).unwrap();
    assert_eq!(config.api_key, "X");
    assert_eq!(config.apibase, "https://api.mackerelio.com/");
}

#[test]
fn from_ini_reads_both_keys() {
    let ini = Ini::load_from_str("apikey = secret\napibase = https://example.test/\n").unwrap();
    let config = Config::from_ini(ini).unwrap();
    assert_eq!(
        config,
        Config { api_key: "secret".to_string(), apibase: "https://example.test/".to_string() }
    );
}

#[test]
fn from_ini_without_apikey_fails() {
    let ini = Ini::load_from_str("apibase = https://example.test/\n").unwrap();
    assert_eq!(Config::from_ini(ini), Err(ConfigError::MissingApiKey));
}

#[test]
fn from_ini_looks_at_the_first_section_only() {
    let ini = Ini::load_from_str("[agent]\napikey = X\n").unwrap();
    assert_eq!(Config::from_ini(ini), Err(ConfigError::MissingApiKey));

    let ini = Ini::load_from_str("apikey = top\n[agent]\napikey = inner\n").unwrap();
    assert_eq!(Config::from_ini(ini).unwrap().api_key, "top");
}

#[test]
fn from_ini_takes_a_named_section_when_it_comes_first() {
    let mut ini = Ini::new();
    ini.delete(None::<String>);
    ini.with_section(Some("agent")).set("apikey", "X");
    let config = Config::from_ini(ini).unwrap();
    assert_eq!(config.api_key, "X");
    assert_eq!(config.apibase, DEFAULT_APIBASE);
}

#[test]
fn from_ini_without_sections_fails() {
    let mut ini = Ini::new();
    ini.clear();
    assert_eq!(Config::from_ini(ini), Err(ConfigError::NoSection));
}
