use envie::Envie;

fn has_pair(all: &[(String, String)], key: &str, value: &str) -> bool {
    all.iter().any(|(k, v)| k == key && v == value)
}

fn has_key(all: &[(String, String)], key: &str) -> bool {
    all.iter().any(|(k, _)| k == key)
}

#[test]
fn test_parse() {
    let content = "KEY1=VALUE1\nKEY2=VALUE2\n";
    let variables = Envie::parse(content);
    assert_eq!(variables.get("KEY1", None), Some("VALUE1".to_string()));
    assert_eq!(variables.get("KEY2", None), Some("VALUE2".to_string()));
}

#[test]
fn test_get() {
    let env = Envie::empty();
    assert_eq!(
        env.get("TEST_KEY", Some("test_value".to_string())),
        Some("test_value".to_string())
    );
}

#[test]
fn test_contains_key() {
    let env = Envie::parse("EXISTS=value");
    assert!(env.contains_key("EXISTS", None));
    assert!(!env.contains_key("DOES_NOT_EXIST", None));
}

#[test]
fn parse_trims_key_and_value() {
    let env = Envie::parse("  KEY = value  ");
    assert_eq!(env.get("KEY", None), Some("value".to_string()));
}

#[test]
fn parse_skips_blank_and_comment_lines() {
    let env = Envie::parse("\n   \n# comment\n");
    assert!(env.get_all().is_empty());
}

#[test]
fn parse_line_without_equals_is_key_with_empty_value() {
    let env = Envie::parse("JUSTAKEY");
    assert_eq!(env.get("JUSTAKEY", None), Some("".to_string()));
}

#[test]
fn parse_splits_at_first_equals_only() {
    let env = Envie::parse("A=b=c");
    assert_eq!(env.get("A", None), Some("b=c".to_string()));
}

#[test]
fn parse_last_duplicate_wins() {
    let env = Envie::parse("A=1\nA=2");
    assert_eq!(env.get("A", None), Some("2".to_string()));
    assert_eq!(env.get_all().len(), 1);
}

#[test]
fn parse_empty_value() {
    let env = Envie::parse("KEY=");
    assert_eq!(env.get("KEY", None), Some("".to_string()));
}

#[test]
fn parse_handles_crlf_line_endings() {
    let env = Envie::parse("A=1\r\nB=2\r\n");
    assert_eq!(env.get("A", None), Some("1".to_string()));
    assert_eq!(env.get("B", None), Some("2".to_string()));
}

#[test]
fn parse_skips_comment_with_leading_whitespace() {
    let env = Envie::parse("   # note\nA=1");
    assert_eq!(env.get_all().len(), 1);
    assert_eq!(env.get("A", None), Some("1".to_string()));
}

#[test]
fn parse_keeps_inner_whitespace() {
    let env = Envie::parse("GREETING=hello world");
    assert_eq!(env.get("GREETING", None), Some("hello world".to_string()));
}

#[test]
fn get_prefers_mapping_over_environment() {
    let env = Envie::parse("A=1");
    assert_eq!(env.get("A", Some("2".to_string())), Some("1".to_string()));
}

#[test]
fn get_absent_everywhere_is_none() {
    let env = Envie::empty();
    assert_eq!(env.get("MISSING", None), None);
}

#[test]
fn contains_key_from_environment_only() {
    let env = Envie::empty();
    assert!(env.contains_key("ONLY_IN_ENV", Some("x".to_string())));
    assert!(!env.contains_key("ONLY_IN_ENV", None));
}

#[test]
fn get_bool_accepts_true_words() {
    let env = Envie::parse("A=true\nB=TRUE\nC=1\nD=TrUe");
    assert_eq!(env.get_bool("A", None), Ok(true));
    assert_eq!(env.get_bool("B", None), Ok(true));
    assert_eq!(env.get_bool("C", None), Ok(true));
    assert_eq!(env.get_bool("D", None), Ok(true));
}

#[test]
fn get_bool_accepts_false_words() {
    let env = Envie::parse("A=false\nB=FALSE\nC=0");
    assert_eq!(env.get_bool("A", None), Ok(false));
    assert_eq!(env.get_bool("B", None), Ok(false));
    assert_eq!(env.get_bool("C", None), Ok(false));
}

#[test]
fn get_bool_rejects_other_words() {
    let env = Envie::parse("A=yes");
    assert_eq!(
        env.get_bool("A", None),
        Err("Invalid boolean value for key 'A'".to_string())
    );
}

#[test]
fn get_bool_missing_key() {
    let env = Envie::empty();
    assert_eq!(
        env.get_bool("FLAG", None),
        Err("Key 'FLAG' not found".to_string())
    );
}

#[test]
fn get_bool_from_environment_fallback() {
    let env = Envie::empty();
    assert_eq!(env.get_bool("FLAG", Some("TRUE".to_string())), Ok(true));
}

#[test]
fn get_int_reads_decimal() {
    let env = Envie::parse("X=42");
    assert_eq!(env.get_int("X", None), Ok(42));
}

#[test]
fn get_int_missing_key() {
    let env = Envie::empty();
    assert_eq!(env.get_int("X", None), Err("Key 'X' not found".to_string()));
}

#[test]
fn get_int_rejects_trailing_garbage() {
    let env = Envie::parse("X=12abc");
    assert_eq!(
        env.get_int("X", None),
        Err("Invalid integer value for key 'X'".to_string())
    );
}

#[test]
fn get_int_signs_and_limits() {
    let env = Envie::parse("A=-2147483648\nB=2147483647\nC=+7\nD=-0");
    assert_eq!(env.get_int("A", None), Ok(i32::MIN));
    assert_eq!(env.get_int("B", None), Ok(i32::MAX));
    assert_eq!(env.get_int("C", None), Ok(7));
    assert_eq!(env.get_int("D", None), Ok(0));
}

#[test]
fn get_int_rejects_overflow_and_empty() {
    let env = Envie::parse("A=2147483648\nB=-2147483649\nC=-\nD=99999999999999999999");
    let msg = |k: &str| format!("Invalid integer value for key '{}'", k);
    assert_eq!(env.get_int("A", None), Err(msg("A")));
    assert_eq!(env.get_int("B", None), Err(msg("B")));
    assert_eq!(env.get_int("C", None), Err(msg("C")));
    assert_eq!(env.get_int("D", None), Err(msg("D")));
}

#[test]
fn set_updates_mapping_and_render_round_trips() {
    let mut env = Envie::empty();
    env.set("A", "1");
    assert!(has_pair(&env.get_all(), "A", "1"));
    let reloaded = Envie::parse(&env.render());
    assert!(has_pair(&reloaded.get_all(), "A", "1"));
}

#[test]
fn set_overwrites_existing_key() {
    let mut env = Envie::parse("A=1");
    env.set("A", "2");
    assert_eq!(env.get("A", None), Some("2".to_string()));
    assert_eq!(env.get_all().len(), 1);
}

#[test]
fn remove_deletes_key_and_render_confirms() {
    let mut env = Envie::empty();
    env.set("A", "1");
    env.set("B", "2");
    env.remove("A");
    assert!(!has_key(&env.get_all(), "A"));
    let reloaded = Envie::parse(&env.render());
    assert!(!has_key(&reloaded.get_all(), "A"));
    assert!(has_pair(&reloaded.get_all(), "B", "2"));
}

#[test]
fn remove_absent_key_is_noop() {
    let mut env = Envie::parse("A=1");
    env.remove("B");
    assert!(has_pair(&env.get_all(), "A", "1"));
    assert_eq!(env.get_all().len(), 1);
}

#[test]
fn render_writes_one_line_per_entry() {
    let env = Envie::parse("A=1");
    assert_eq!(env.render(), "A=1\n");
    let empty = Envie::empty();
    assert_eq!(empty.render(), "");
}

#[test]
fn render_parse_round_trip_many_entries() {
    let mut env = Envie::empty();
    env.set("HOST", "localhost");
    env.set("PORT", "8080");
    env.set("EMPTY", "");
    env.set("EQ", "a=b");
    let reloaded = Envie::parse(&env.render());
    let all = reloaded.get_all();
    assert_eq!(all.len(), 4);
    assert!(has_pair(&all, "HOST", "localhost"));
    assert!(has_pair(&all, "PORT", "8080"));
    assert!(has_pair(&all, "EMPTY", ""));
    assert!(has_pair(&all, "EQ", "a=b"));
}
