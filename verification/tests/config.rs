use alapi::channels::ChannelTable;
use alapi::config::{
    default_bind, default_sampling_factor, parse_channel_index, ChannelEntry, Config, ConfigError,
};

fn entry(key: &str, name: &str) -> ChannelEntry {
    ChannelEntry { key: key.to_string(), name: name.to_string() }
}

fn config_with(channel_map: Vec<ChannelEntry>) -> Config {
    Config::from_parts("ALSA".to_string(), "default".to_string(), 2, channel_map, None, None)
}

#[test]
fn defaults_are_any_address_and_one_period_a_second() {
    assert_eq!(default_bind(), "0.0.0.0");
    assert_eq!(default_sampling_factor(), 1);
}

#[test]
fn from_parts_fills_in_what_is_missing() {
    let config = config_with(vec![entry("0", "left")]);
    assert_eq!(config.host, "ALSA");
    assert_eq!(config.device, "default");
    assert_eq!(config.min_channels, 2);
    assert_eq!(config.channel_map.len(), 1);
    assert_eq!(config.channel_map[0].key, "0");
    assert_eq!(config.channel_map[0].name, "left");
    assert_eq!(config.http_bind, "0.0.0.0");
    assert_eq!(config.sampling_factor, 1);
}

#[test]
fn from_parts_keeps_what_is_given() {
    let config = Config::from_parts(
        "JACK".to_string(),
        "hw:1".to_string(),
        4,
        Vec::new(),
        Some("127.0.0.1:8000".to_string()),
        Some(10),
    );
    assert_eq!(config.host, "JACK");
    assert_eq!(config.device, "hw:1");
    assert_eq!(config.min_channels, 4);
    assert!(config.channel_map.is_empty());
    assert_eq!(config.http_bind, "127.0.0.1:8000");
    assert_eq!(config.sampling_factor, 10);
}

#[test]
fn keys_are_decimal_numbers() {
    assert_eq!(parse_channel_index("0"), Some(0));
    assert_eq!(parse_channel_index("1"), Some(1));
    assert_eq!(parse_channel_index("17"), Some(17));
    assert_eq!(parse_channel_index("007"), Some(7));
    assert_eq!(parse_channel_index("4096"), Some(4096));
}

#[test]
fn keys_may_lead_with_a_plus_sign() {
    assert_eq!(parse_channel_index("+3"), Some(3));
    assert_eq!(parse_channel_index("+0"), Some(0));
    assert_eq!(parse_channel_index("++3"), None);
    assert_eq!(parse_channel_index("3+"), None);
}

#[test]
fn keys_that_are_no_numbers_are_refused() {
    assert_eq!(parse_channel_index(""), None);
    assert_eq!(parse_channel_index("+"), None);
    assert_eq!(parse_channel_index("-1"), None);
    assert_eq!(parse_channel_index("-0"), None);
    assert_eq!(parse_channel_index(" 1"), None);
    assert_eq!(parse_channel_index("1 "), None);
    assert_eq!(parse_channel_index("1a"), None);
    assert_eq!(parse_channel_index("left"), None);
    assert_eq!(parse_channel_index("1.0"), None);
    assert_eq!(parse_channel_index("0x10"), None);
    assert_eq!(parse_channel_index("\u{0661}"), None);
    assert_eq!(parse_channel_index("1\u{00e9}"), None);
}

#[test]
fn keys_agree_with_the_standard_parser() {
    let keys = [
        "0", "9", "10", "+10", "0010", "", "+", "-", "-5", "5-", "a", "12a", " 12", "\u{0967}\u{0968}",
        "18446744073709551615", "18446744073709551616", "4294967295", "4294967296",
        "99999999999999999999999999", "000000000000000000000000000001",
    ];
    for key in keys {
        assert_eq!(parse_channel_index(key), key.parse::<usize>().ok(), "key {:?}", key);
    }
}

#[test]
fn keys_too_large_for_the_word_are_refused() {
    let largest = usize::MAX.to_string();
    assert_eq!(parse_channel_index(&largest), Some(usize::MAX));
    let mut beyond = largest.clone();
    beyond.push('0');
    assert_eq!(parse_channel_index(&beyond), None);
    assert_eq!(parse_channel_index("340282366920938463463374607431768211456"), None);
}

#[test]
fn channel_table_maps_positions_to_names() {
    let config = config_with(vec![entry("0", "left"), entry("1", "right"), entry("5", "aux")]);
    let table: ChannelTable = config.channel_table().unwrap();
    assert_eq!(table.len(), 3);
    assert_eq!(table.get(0), Some(&"left".to_string()));
    assert_eq!(table.get(1), Some(&"right".to_string()));
    assert_eq!(table.get(5), Some(&"aux".to_string()));
    assert_eq!(table.get(2), None);
}

#[test]
fn channel_table_lets_the_later_entry_count() {
    let config = config_with(vec![entry("1", "first"), entry("2", "other"), entry("+01", "second")]);
    let table = config.channel_table().unwrap();
    assert_eq!(table.len(), 2);
    assert_eq!(table.get(1), Some(&"second".to_string()));
    assert_eq!(table.get(2), Some(&"other".to_string()));
}

#[test]
fn channel_table_of_an_empty_map_is_empty() {
    let table = config_with(Vec::new()).channel_table().unwrap();
    assert_eq!(table.len(), 0);
    assert_eq!(table.get(0), None);
}

#[test]
fn channel_table_names_the_first_bad_key() {
    let config = config_with(vec![entry("0", "left"), entry("one", "right"), entry("", "aux")]);
    match config.channel_table() {
        Err(ConfigError::BadChannelKey { place }) => assert_eq!(place, 1),
        Ok(_) => panic!("a key that is no number was accepted"),
    }
    let config = config_with(vec![entry("-1", "left")]);
    assert!(matches!(config.channel_table(), Err(ConfigError::BadChannelKey { place: 0 })));
}

#[test]
fn table_insert_replaces_the_name_of_a_known_position() {
    let mut table = ChannelTable::new();
    assert_eq!(table.len(), 0);
    table.insert(3, "three".to_string());
    table.insert(1, "one".to_string());
    assert_eq!(table.len(), 2);
    assert_eq!(table.find(3), Some(0));
    assert_eq!(table.find(1), Some(1));
    assert_eq!(table.find(2), None);
    table.insert(3, "drei".to_string());
    assert_eq!(table.len(), 2);
    assert_eq!(table.get(3), Some(&"drei".to_string()));
    assert_eq!(table.get(1), Some(&"one".to_string()));
    assert_eq!(table.channel(0).index, 3);
    assert_eq!(table.channel(0).name, "drei");
    assert_eq!(table.channel(1).index, 1);
}
