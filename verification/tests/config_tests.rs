use dotcfg::parse_config_text;
use dotcfg::get_value;
use dotcfg::ConfigValue;

#[test]
fn parse_then_lookup_returns_trimmed_value() {
    let config = parse_config_text("server.host = localhost");
    let v = get_value(&config, "server.host").unwrap();
    assert_eq!(v, "localhost");
}

#[test]
fn parse_trims_key_and_value() {
    let config = parse_config_text("   key  =   some value   ");
    let v = get_value(&config, "key").unwrap();
    assert_eq!(v, "some value");
}

#[test]
fn value_may_contain_equals() {
    let config = parse_config_text("k = a=b");
    assert_eq!(get_value(&config, "k").unwrap(), "a=b");
}

#[test]
fn parse_twice_yields_equal_trees() {
    let text = "a.b = 1\nc = 2\n# note\nd.e.f = deep";
    let first = parse_config_text(text);
    let second = parse_config_text(text);
    assert_eq!(first, second);
}

#[test]
fn last_occurrence_wins() {
    let config = parse_config_text("a = 1\na = 2");
    assert_eq!(get_value(&config, "a").unwrap(), "2");
}

#[test]
fn skipped_lines_never_alter_the_tree() {
    let with_noise = parse_config_text("no equals sign here\n# x = 1\n   \n\nx = 1");
    let plain = parse_config_text("x = 1");
    assert_eq!(with_noise, plain);
    assert_eq!(get_value(&with_noise, "x").unwrap(), "1");
}

#[test]
fn comment_line_defines_nothing() {
    let config = parse_config_text("# a = 1");
    assert!(get_value(&config, "a").is_none());
    assert_eq!(config.len(), 0);
}

#[test]
fn nested_path_resolves() {
    let config = parse_config_text("d.e.f = deep");
    assert_eq!(get_value(&config, "d.e.f").unwrap(), "deep");
    assert!(get_value(&config, "d.e").is_none());
    assert!(get_value(&config, "d.e.f.g").is_none());
}

#[test]
fn empty_segments_are_plain_keys() {
    let config = parse_config_text("a..b = 1");
    assert_eq!(get_value(&config, "a..b").unwrap(), "1");
}

#[test]
fn existing_leaf_blocks_deeper_insertion() {
    let config = parse_config_text("a = x\na.b = y");
    assert_eq!(get_value(&config, "a").unwrap(), "x");
    assert!(get_value(&config, "a.b").is_none());
}

#[test]
fn later_leaf_overwrites_map() {
    let config = parse_config_text("a.b = x\na = y");
    assert_eq!(get_value(&config, "a").unwrap(), "y");
    assert!(get_value(&config, "a.b").is_none());
}

#[test]
fn tree_shape_of_nested_key() {
    let config = parse_config_text("a.b = 1");
    assert_eq!(config.len(), 1);
    assert_eq!(config[0].0, "a");
    match &config[0].1 {
        ConfigValue::Table(inner) => {
            assert_eq!(inner.len(), 1);
            assert_eq!(inner[0].0, "b");
            assert_eq!(inner[0].1, ConfigValue::String("1".to_string()));
        },
        ConfigValue::String(_) => panic!("expected a nested map at key a"),
    }
}
