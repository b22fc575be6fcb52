use dfconfig::Config;
use dfconfig::ConfigError;
use dfconfig::Entry;

#[test]
fn test_round_trip_preserves_text() {
    let text = "[A:B]\r\n\r\nfoo bar\r\n[C:D:E]";
    let c = Config::read_str(text);
    assert_eq!(c.print(), text);
}

#[test]
fn test_round_trip_trailing_cr_comment() {
    let text = "plain comment\r\n[K:V1]";
    let c = Config::read_str(text);
    assert_eq!(c.print(), text);
}

#[test]
fn test_last_write_wins() {
    let c = Config::read_str("[A:B]\r\n[A:C]");
    assert_eq!(c.get("A"), Some("C"));
}

#[test]
fn test_multi_colon_value() {
    let c = Config::read_str("[A:B:C]");
    assert_eq!(c.get("A"), Some("B:C"));
}

#[test]
fn test_set_creates_then_updates() {
    let mut c = Config::new();
    c.set("A", "B").unwrap();
    assert_eq!(c.get("A"), Some("B"));
    assert_eq!(c.len(), 1);
    c.set("A", "C").unwrap();
    assert_eq!(c.len(), 1);
    assert_eq!(c.get("A"), Some("C"));
}

#[test]
fn test_set_updates_all_duplicates() {
    let mut c = Config::read_str("[A:B]\r\n[A:C]");
    c.set("A", "X").unwrap();
    assert_eq!(c.len(), 2);
    assert_eq!(c.get("A"), Some("X"));
    assert_eq!(c.print(), "[A:X]\r\n[A:X]");
}

#[test]
fn test_remove_counts_and_clears() {
    let mut c = Config::read_str("[A:foo]\r\n[B:bar]\r\n[B:bar2]\r\n[C:foobar]");
    assert_eq!(c.remove("B"), 2);
    assert_eq!(c.get("B"), None);
    assert_eq!(c.len(), 2);
    assert_eq!(c.print(), "[A:foo]\r\n[C:foobar]");
}

#[test]
fn test_comment_and_blank_invisible() {
    let c = Config::read_str("[A:B]\r\nfoo bar\r\n[C:D]");
    assert_eq!(c.len(), 2);
    assert_eq!(c.print(), "[A:B]\r\nfoo bar\r\n[C:D]");
}

#[test]
fn test_invalid_set_rejected() {
    let mut c = Config::read_str("[A:B]");
    assert_eq!(c.set("", "x"), Err(ConfigError::InvalidArgument));
    assert_eq!(c.set("key\r", "v"), Err(ConfigError::InvalidArgument));
    assert_eq!(c.set("key", ""), Err(ConfigError::InvalidArgument));
    assert_eq!(c.set("key", "a b"), Err(ConfigError::InvalidArgument));
    assert_eq!(c.print(), "[A:B]");
    assert_eq!(c.len(), 1);
}

#[test]
fn test_empty_text() {
    let c = Config::read_str("");
    assert_eq!(c.len(), 0);
    assert!(c.is_empty());
    assert_eq!(c.print(), "");
}

#[test]
fn test_whitespace_only_line_is_blank() {
    let c = Config::read_str("   ");
    assert_eq!(c.len(), 0);
    assert_eq!(c.print(), "");
}

#[test]
fn test_near_miss_lines_are_comments() {
    for text in ["[A:B", "A:B]", "[AB]", "[:B]", "[A:]", "[A_b:C]", " [A:B]"] {
        let c = Config::read_str(text);
        assert_eq!(c.len(), 0, "{}", text);
        assert_eq!(c.print(), text);
    }
}

#[test]
fn test_entry_trailing_whitespace_trimmed() {
    let c = Config::read_str("[A:B]  ");
    assert_eq!(c.get("A"), Some("B"));
    assert_eq!(c.print(), "[A:B]");
}

#[test]
fn test_get_case_sensitive() {
    let c = Config::read_str("[A:B]");
    assert_eq!(c.get("a"), None);
}

#[test]
fn test_keys_iter_keeps_duplicates() {
    let c = Config::read_str("[A:1]\r\n[B:2]\r\n[A:3]");
    let keys = c.keys_iter();
    assert_eq!(keys, vec!["A".to_string(), "B".to_string(), "A".to_string()]);
}

#[test]
fn test_to_mapping_last_occurrence_wins() {
    let c = Config::read_str("[A:1]\r\n[B:2]\r\n[A:3]");
    let m = c.to_mapping();
    assert_eq!(m.len(), 2);
    assert_eq!(m.get("A").unwrap(), "3");
    assert_eq!(m.get("B").unwrap(), "2");
}

#[test]
fn test_entry_accessors() {
    let mut e = Entry::new("KEY".to_string(), "VALUE".to_string());
    assert_eq!(e.get_key(), "KEY");
    assert_eq!(e.get_value(), "VALUE");
    e.set_value("OTHER".to_string());
    assert_eq!(e.get_key(), "KEY");
    assert_eq!(e.get_value(), "OTHER");
}

#[test]
fn test_default_is_empty() {
    let c = Config::default();
    assert!(c.is_empty());
    assert_eq!(c.print(), "");
}

#[test]
fn test_bare_newline_normalized_to_crlf() {
    let c = Config::read_str("[A:B]\n[C:D]");
    assert_eq!(c.len(), 2);
    assert_eq!(c.print(), "[A:B]\r\n[C:D]");
}

#[test]
fn test_trailing_separator_drops_phantom_line() {
    let c = Config::read_str("[A:B]\r\n");
    assert_eq!(c.len(), 1);
    assert_eq!(c.print(), "[A:B]");
}
