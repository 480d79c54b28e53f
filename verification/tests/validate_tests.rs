use dotcfg::parse_config_text;
use dotcfg::parse_schema_text;
use dotcfg::validate;
use dotcfg::ValidationError;

const SCHEMA_TEXT: &str = "name = string\nage = integer\nactive = bool";

#[test]
fn test_valid_config() {
    let config = parse_config_text("name = hello\nage = 42\nactive = true");
    let schema = parse_schema_text(SCHEMA_TEXT);
    assert!(validate(&config, &schema).is_ok());
}

#[test]
fn test_invalid_bool() {
    let config = parse_config_text("name = hello\nage = 42\nactive = maybe");
    let schema = parse_schema_text(SCHEMA_TEXT);
    assert!(validate(&config, &schema).is_err());
}

#[test]
fn test_invalid_integer() {
    let config = parse_config_text("name = hello\nage = 12a\nactive = true");
    let schema = parse_schema_text(SCHEMA_TEXT);
    assert!(validate(&config, &schema).is_err());
}

#[test]
fn test_missing_key() {
    let config = parse_config_text("name = hello\nactive = true");
    let schema = parse_schema_text(SCHEMA_TEXT);
    assert!(validate(&config, &schema).is_err());
}

#[test]
fn integer_key_with_integer_value_passes() {
    let config = parse_config_text("a.b = 1");
    let schema = parse_schema_text("a.b = integer");
    assert!(validate(&config, &schema).is_ok());
}

#[test]
fn yes_is_not_a_bool() {
    let config = parse_config_text("flag = yes");
    let schema = parse_schema_text("flag = bool");
    assert_eq!(
        validate(&config, &schema),
        Err(ValidationError::InvalidBool("flag".to_string()))
    );
}

#[test]
fn maybe_is_not_a_bool_but_literals_pass() {
    let schema = parse_schema_text("flag = bool");
    let bad = parse_config_text("flag = maybe");
    assert_eq!(
        validate(&bad, &schema),
        Err(ValidationError::InvalidBool("flag".to_string()))
    );
    let yes = parse_config_text("flag = true");
    assert!(validate(&yes, &schema).is_ok());
    let no = parse_config_text("flag = false");
    assert!(validate(&no, &schema).is_ok());
}

#[test]
fn bool_is_case_sensitive() {
    let config = parse_config_text("flag = True");
    let schema = parse_schema_text("flag = bool");
    assert_eq!(
        validate(&config, &schema),
        Err(ValidationError::InvalidBool("flag".to_string()))
    );
}

#[test]
fn absent_timeout_is_missing_key() {
    let config = parse_config_text("other = 1");
    let schema = parse_schema_text("timeout = integer");
    assert_eq!(
        validate(&config, &schema),
        Err(ValidationError::MissingKey("timeout".to_string()))
    );
}

#[test]
fn leaf_at_inner_segment_is_missing_key() {
    let config = parse_config_text("a = hello");
    let schema = parse_schema_text("a.b = string");
    assert_eq!(
        validate(&config, &schema),
        Err(ValidationError::MissingKey("a.b".to_string()))
    );
}

#[test]
fn map_in_place_of_leaf_is_missing_key() {
    let config = parse_config_text("a.b = hello");
    let schema = parse_schema_text("a = string");
    assert_eq!(
        validate(&config, &schema),
        Err(ValidationError::MissingKey("a".to_string()))
    );
}

#[test]
fn twelve_a_is_not_an_integer_but_negative_is() {
    let schema = parse_schema_text("n = integer");
    let bad = parse_config_text("n = 12a");
    assert_eq!(
        validate(&bad, &schema),
        Err(ValidationError::InvalidInteger("n".to_string()))
    );
    let neg = parse_config_text("n = -42");
    assert!(validate(&neg, &schema).is_ok());
}

#[test]
fn integer_bounds_are_those_of_i64() {
    let schema = parse_schema_text("n = integer");
    let max = parse_config_text("n = 9223372036854775807");
    assert!(validate(&max, &schema).is_ok());
    let over = parse_config_text("n = 9223372036854775808");
    assert_eq!(
        validate(&over, &schema),
        Err(ValidationError::InvalidInteger("n".to_string()))
    );
    let min = parse_config_text("n = -9223372036854775808");
    assert!(validate(&min, &schema).is_ok());
    let under = parse_config_text("n = -9223372036854775809");
    assert_eq!(
        validate(&under, &schema),
        Err(ValidationError::InvalidInteger("n".to_string()))
    );
}

#[test]
fn sign_alone_or_plus_is_not_an_integer() {
    let schema = parse_schema_text("n = integer");
    let dash = parse_config_text("n = -");
    assert!(validate(&dash, &schema).is_err());
    let plus = parse_config_text("n = +5");
    assert!(validate(&plus, &schema).is_err());
    let empty = parse_config_text("n =");
    assert!(validate(&empty, &schema).is_err());
}

#[test]
fn unknown_tag_accepts_any_string() {
    let config = parse_config_text("a = whatever text");
    let schema = parse_schema_text("a = anything");
    assert!(validate(&config, &schema).is_ok());
}

#[test]
fn schema_last_tag_wins() {
    let config = parse_config_text("a = hello");
    let schema = parse_schema_text("a = integer\na = string");
    assert!(validate(&config, &schema).is_ok());
}

#[test]
fn empty_schema_always_passes() {
    let config = parse_config_text("a = 1");
    let schema = parse_schema_text("# only a comment");
    assert!(validate(&config, &schema).is_ok());
    assert_eq!(schema.len(), 0);
}
