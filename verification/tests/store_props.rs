use egui_logger::{EguiLogger, LogLevel, LogRecord, TimeFormat};

fn one(name: &str) -> Vec<String> {
    vec![name.to_string()]
}

#[test]
fn retention_bound_evicts_oldest() {
    let mut logger = EguiLogger::new();
    logger.max_records_per_level = 3;

    for i in 0..5 {
        logger.log(LogLevel::Info, one("A"), &format!("msg {}", i));
    }

    // Only the three newest records of that severity remain, oldest first.
    assert_eq!(logger.total_records(), 3);
    let visible = logger.filtered_records();
    assert_eq!(visible.len(), 3);
    assert_eq!(visible[0].message, "msg 2");
    assert_eq!(visible[1].message, "msg 3");
    assert_eq!(visible[2].message, "msg 4");
}

#[test]
fn retention_is_per_level() {
    let mut logger = EguiLogger::new();
    logger.max_records_per_level = 2;

    logger.log(LogLevel::Error, one("A"), "the error");
    for i in 0..4 {
        logger.log(LogLevel::Debug, one("A"), &format!("debug {}", i));
    }

    // A burst of Debug records cannot evict the Error record.
    logger.min_display_level = LogLevel::Error;
    let errors = logger.filtered_records();
    assert_eq!(errors.len(), 1);
    assert_eq!(errors[0].message, "the error");
    assert_eq!(logger.total_records(), 3); // 1 error + 2 debug
}

#[test]
fn category_counts_track_occurrences() {
    let mut logger = EguiLogger::new();

    // A record tagging the same category twice counts once per occurrence.
    logger.log(LogLevel::Info, vec!["A".to_string(), "A".to_string()], "double");
    logger.log(LogLevel::Info, vec!["A".to_string(), "B".to_string()], "mixed");

    assert_eq!(logger.category_counts.len(), 2);
    assert_eq!(logger.category_counts[0], ("A".to_string(), 3));
    assert_eq!(logger.category_counts[1], ("B".to_string(), 1));

    // Eviction decrements symmetrically; the key stays with count zero.
    logger.max_records_per_level = 1;
    logger.log(LogLevel::Info, one("C"), "third");
    // "double" and "mixed" were evicted; only "third" remains.
    assert_eq!(logger.total_records(), 1);
    assert_eq!(logger.category_counts[0], ("A".to_string(), 0));
    assert_eq!(logger.category_counts[1], ("B".to_string(), 0));
    assert_eq!(logger.category_counts[2], ("C".to_string(), 1));
    // get_all_categories still enumerates the seen names.
    assert_eq!(logger.get_all_categories().len(), 3);
}

#[test]
fn truncation_exact_length() {
    let mut logger = EguiLogger::new();
    logger.max_message_length = 10;

    // A message of length bound + 5 is stored as exactly the bound,
    // ending in the marker.
    logger.log(LogLevel::Info, one("A"), "abcdefghijklmno");
    let records = logger.filtered_records();
    assert_eq!(records[0].message.chars().count(), 10);
    assert_eq!(records[0].message, "abcdefg...");

    // A message within the bound is stored unchanged.
    logger.clear();
    logger.log(LogLevel::Info, one("A"), "abcdefghij");
    let records = logger.filtered_records();
    assert_eq!(records[0].message, "abcdefghij");
}

#[test]
fn truncation_bound_below_marker() {
    let mut logger = EguiLogger::new();
    logger.max_message_length = 2;

    // The kept prefix saturates at zero; only the marker remains.
    logger.log(LogLevel::Info, one("A"), "hello");
    let records = logger.filtered_records();
    assert_eq!(records[0].message, "...");
}

#[test]
fn newlines_are_stripped() {
    let mut logger = EguiLogger::new();
    logger.log(LogLevel::Info, one("A"), "first\nsecond\n");
    let records = logger.filtered_records();
    assert_eq!(records[0].message, "firstsecond");
}

#[test]
fn severity_threshold_warn() {
    let mut logger = EguiLogger::new();
    logger.log(LogLevel::Debug, one("A"), "d");
    logger.log(LogLevel::Info, one("A"), "i");
    logger.log(LogLevel::Warn, one("A"), "w");
    logger.log(LogLevel::Error, one("A"), "e");

    logger.min_display_level = LogLevel::Warn;
    let visible = logger.filtered_records();
    assert_eq!(visible.len(), 2);
    assert!(visible.iter().any(|r| r.message == "w"));
    assert!(visible.iter().any(|r| r.message == "e"));
}

#[test]
fn hidden_category_rejects_whole_record() {
    let mut logger = EguiLogger::new();
    logger.log(LogLevel::Info, vec!["A".to_string(), "B".to_string()], "tagged twice");
    logger.hide_category("B");

    // "A" is visible, but one hidden tag rejects the record entirely.
    assert!(logger.filtered_records().is_empty());

    logger.show_category("B");
    assert_eq!(logger.filtered_records().len(), 1);
}

#[test]
fn search_fails_open_on_invalid_pattern() {
    let mut logger = EguiLogger::new();
    logger.log(LogLevel::Info, one("A"), "alpha");
    logger.log(LogLevel::Info, one("A"), "beta");

    logger.search_term = String::new();
    let with_empty_term: Vec<String> =
        logger.filtered_records().iter().map(|r| r.message.clone()).collect();

    logger.search_with_regex = true;
    logger.search_term = "(".to_string();
    logger.update_search_regex();
    let with_invalid_pattern: Vec<String> =
        logger.filtered_records().iter().map(|r| r.message.clone()).collect();

    assert_eq!(with_invalid_pattern, with_empty_term);
    assert_eq!(with_invalid_pattern.len(), 2);
}

#[test]
fn clear_is_idempotent() {
    let mut logger = EguiLogger::new();
    logger.log(LogLevel::Info, one("A"), "something");
    logger.log(LogLevel::Error, one("B"), "else");

    logger.clear();
    assert_eq!(logger.total_records(), 0);
    assert!(logger.get_all_categories().is_empty());

    logger.clear();
    assert_eq!(logger.total_records(), 0);
    assert!(logger.get_all_categories().is_empty());
}

#[test]
fn case_insensitive_search_scenario() {
    let mut logger = EguiLogger::new();
    logger.log(LogLevel::Info, one("Dialogue"), "Hello world");
    logger.log(LogLevel::Info, one("Unknown"), "Goodbye world");

    // Case-insensitive is the default search mode.
    logger.search_term = "hello".to_string();
    let visible = logger.filtered_records();
    assert_eq!(visible.len(), 1);
    assert_eq!(visible[0].message, "Hello world");
}

#[test]
fn search_lowercases_both_sides() {
    let mut logger = EguiLogger::new();
    logger.log(LogLevel::Info, one("A"), "all lower here");

    // An upper-case term only matches if both sides are lowercased.
    logger.search_term = "LOWER".to_string();
    assert_eq!(logger.filtered_records().len(), 1);
}

#[test]
fn regex_search_matches_pattern_not_literal() {
    let mut logger = EguiLogger::new();
    logger.log(LogLevel::Info, one("A"), "border collie");
    logger.log(LogLevel::Info, one("A"), "b.rder collie");

    logger.search_with_regex = true;
    logger.search_with_case_sensitive = true;
    logger.search_term = "b\\.rder".to_string();
    logger.update_search_regex();

    // The escaped dot matches only the literal dot.
    let visible = logger.filtered_records();
    assert_eq!(visible.len(), 1);
    assert_eq!(visible[0].message, "b.rder collie");
}

#[test]
fn utc_rendering_appears_in_line() {
    let mut logger = EguiLogger::new();
    logger.time_format = TimeFormat::Utc;
    logger.show_level = false;
    logger.show_categories = false;

    // A record at the epoch renders as the fixed RFC-3339 instant.
    let record = LogRecord {
        timestamp: 0,
        level: LogLevel::Info,
        categories: one("A"),
        message: "at the epoch".to_string(),
    };
    logger.log_record(record);
    let records = logger.filtered_records();
    let line = logger.format_record_text(records[0]);
    assert!(line.contains("1970-01-01T00:00:00Z"));
    assert!(line.ends_with("at the epoch"));
}

#[test]
fn search_term_sanitization() {
    let mut logger = EguiLogger::new();
    logger.search_term = "ab\ncd\u{7f}ef".to_string();
    logger.sanitize_search_term();
    assert_eq!(logger.search_term, "abcdef");

    logger.search_term = "x".repeat(600);
    logger.sanitize_search_term();
    assert_eq!(logger.search_term.chars().count(), 512);
}

#[test]
fn empty_inputs_are_accepted() {
    let mut logger = EguiLogger::new();
    logger.log(LogLevel::Info, Vec::<String>::new(), "");
    assert_eq!(logger.total_records(), 1);
    let records = logger.filtered_records();
    assert_eq!(records[0].message, "");
    assert!(records[0].categories.is_empty());
    assert!(logger.get_all_categories().is_empty());
}

#[test]
fn records_come_back_in_storage_order() {
    let mut logger = EguiLogger::new();
    logger.log(LogLevel::Debug, one("A"), "young debug");
    logger.log(LogLevel::Error, one("A"), "old error");

    // Storage order lists the Error queue before the Debug queue.
    let all = logger.records();
    assert_eq!(all.len(), 2);
    assert_eq!(all[0].message, "old error");
    assert_eq!(all[1].message, "young debug");

    // Timestamps allow the caller to sort chronologically.
    assert!(all[0].timestamp >= all[1].timestamp);
}

#[test]
fn stale_pattern_is_used_until_recompiled() {
    let mut logger = EguiLogger::new();
    logger.log(LogLevel::Info, one("A"), "gamma");
    logger.log(LogLevel::Info, one("A"), "delta");

    logger.search_with_regex = true;
    logger.search_with_case_sensitive = true;
    logger.search_term = "gamma".to_string();
    logger.update_search_regex();
    assert_eq!(logger.filtered_records().len(), 1);

    // Changing the term without recompiling keeps matching the old pattern.
    logger.search_term = "delta".to_string();
    assert_eq!(logger.filtered_records().len(), 1);
    assert_eq!(logger.filtered_records()[0].message, "gamma");

    logger.update_search_regex();
    assert_eq!(logger.filtered_records()[0].message, "delta");
}
