use portunus::canon::canonicalize;
use portunus::config::{db_name_of, should_create_database, system_db_url_of};
use portunus::hash::hash_content;
use portunus::names::{migration_header, next_migration_name, parse_leading_number,
    scan_max_number, stamp_from_fields, NewNameError};
use portunus::scan::{sort_files, str_lex_le, SqlFile};
use sha2::{Digest, Sha256};

fn hex_upper(bytes: &[u8]) -> String {
    let mut s = String::new();
    for b in bytes {
        s.push(char::from_digit((b >> 4) as u32, 16).unwrap().to_ascii_uppercase());
        s.push(char::from_digit((b & 0xf) as u32, 16).unwrap().to_ascii_uppercase());
    }
    s
}

#[test]
fn canonicalize_strips_comments_and_blank_lines() {
    let text = "SELECT 1; -- pick one\n\n   CREATE TABLE t (id INT);   \n-- full comment line\n";
    assert_eq!(canonicalize(text), "SELECT 1;\nCREATE TABLE t (id INT);");
}

#[test]
fn canonicalize_empty_and_comment_only() {
    assert_eq!(canonicalize(""), "");
    assert_eq!(canonicalize("-- nothing here\n"), "");
    assert_eq!(canonicalize("   \n\t\n"), "");
}

#[test]
fn canonicalize_keeps_inner_whitespace() {
    assert_eq!(canonicalize("a   b\n"), "a   b");
}

#[test]
fn hash_of_comment_only_file_is_hash_of_empty() {
    // SHA-256 of the empty string.
    let empty = "E3B0C44298FC1C149AFBF4C8996FB92427AE41E4649B934CA495991B7852B855";
    assert_eq!(hash_content(""), empty);
    assert_eq!(hash_content("-- only a comment\n"), empty);
}

#[test]
fn hash_known_vector() {
    // SHA-256 of "abc".
    assert_eq!(
        hash_content("abc"),
        "BA7816BF8F01CFEA414140DE5DAE2223B00361A396177A9CB410FF61F20015AD"
    );
}

#[test]
fn hash_is_pure() {
    let a = hash_content("CREATE TABLE a (x INT);\n");
    let b = hash_content("CREATE TABLE a (x INT);\n");
    assert_eq!(a, b);
    assert_eq!(a.len(), 64);
}

#[test]
fn comment_edits_keep_the_hash() {
    let h1 = hash_content("CREATE TABLE a (x INT);");
    let h2 = hash_content("CREATE TABLE a (x INT); -- first try");
    let h3 = hash_content("CREATE TABLE a (x INT); -- second thoughts\n");
    assert_eq!(h1, h2);
    assert_eq!(h1, h3);
}

#[test]
fn sql_edits_change_the_hash() {
    let h1 = hash_content("CREATE TABLE a (x INT);");
    let h2 = hash_content("CREATE TABLE b (x INT);");
    assert_ne!(h1, h2);
}

#[test]
fn hash_agrees_with_direct_digest_of_canonical_text() {
    let text = "  CREATE TABLE a (x INT);  -- note\nINSERT INTO a VALUES (1);\n";
    let canonical = canonicalize(text);
    assert_eq!(canonical, "CREATE TABLE a (x INT);\nINSERT INTO a VALUES (1);");
    let expected = hex_upper(&Sha256::digest(canonical.as_bytes()));
    assert_eq!(hash_content(text), expected);
}

#[test]
fn filename_order_is_bytewise() {
    assert!(str_lex_le("001_a.sql", "002_b.sql"));
    assert!(str_lex_le("001_a.sql", "001_a.sql"));
    assert!(!str_lex_le("010_a.sql", "002_b.sql"));
    assert!(str_lex_le("A.sql", "a.sql"));
}

#[test]
fn sort_files_orders_by_filename() {
    let files = vec![
        SqlFile { filename: "002_b.sql".to_string(), text: "b".to_string() },
        SqlFile { filename: "001_a.sql".to_string(), text: "a".to_string() },
        SqlFile { filename: "010_c.sql".to_string(), text: "c".to_string() },
    ];
    let sorted = sort_files(files);
    let names: Vec<&str> = sorted.iter().map(|f| f.filename.as_str()).collect();
    assert_eq!(names, vec!["001_a.sql", "002_b.sql", "010_c.sql"]);
    let texts: Vec<&str> = sorted.iter().map(|f| f.text.as_str()).collect();
    assert_eq!(texts, vec!["a", "b", "c"]);
}

#[test]
fn sort_files_is_deterministic_for_a_set_of_names() {
    let a = vec![
        SqlFile { filename: "b.sql".to_string(), text: "1".to_string() },
        SqlFile { filename: "a.sql".to_string(), text: "2".to_string() },
    ];
    let b = vec![
        SqlFile { filename: "a.sql".to_string(), text: "2".to_string() },
        SqlFile { filename: "b.sql".to_string(), text: "1".to_string() },
    ];
    let sa: Vec<String> = sort_files(a).into_iter().map(|f| f.filename).collect();
    let sb: Vec<String> = sort_files(b).into_iter().map(|f| f.filename).collect();
    assert_eq!(sa, sb);
}

#[test]
fn leading_number_parses_delimited_digits() {
    assert_eq!(parse_leading_number("1_foo.sql"), Some(1));
    assert_eq!(parse_leading_number("007_x.sql"), Some(7));
    assert_eq!(parse_leading_number("12.3_x.sql"), Some(12));
    assert_eq!(parse_leading_number("4294967295_x.sql"), Some(u32::MAX));
}

#[test]
fn leading_number_rejects_unnumbered_and_oversized_names() {
    assert_eq!(parse_leading_number("foo.sql"), None);
    assert_eq!(parse_leading_number("123"), None);
    assert_eq!(parse_leading_number("123x_y.sql"), None);
    assert_eq!(parse_leading_number("4294967296_x.sql"), None);
    // A 14-digit timestamp prefix is a leading integer too large for the
    // integer convention, so it sets no convention.
    assert_eq!(parse_leading_number("20240101120000_a.sql"), None);
}

#[test]
fn scan_finds_highest_number() {
    let names = vec![
        "2_bar.sql".to_string(),
        "10_baz.sql".to_string(),
        "1_foo.sql".to_string(),
        "notes.txt".to_string(),
    ];
    assert_eq!(scan_max_number(&names), Some(10));
    assert_eq!(scan_max_number(&Vec::new()), None);
}

#[test]
fn next_name_follows_integer_convention() {
    let names = vec!["1_foo.sql".to_string(), "2_bar.sql".to_string()];
    let got = next_migration_name(&names, "baz").unwrap();
    assert_eq!(got, "3_baz.sql");
}

#[test]
fn next_name_in_empty_directory_is_timestamped() {
    let names: Vec<String> = Vec::new();
    let got = next_migration_name(&names, "init").unwrap();
    assert_eq!(got.len(), 14 + "_init.sql".len());
    assert!(got.chars().take(14).all(|c| c.is_ascii_digit()));
    assert!(got.ends_with("_init.sql"));
}

#[test]
fn next_name_overflow_is_an_error() {
    let names = vec!["4294967295_last.sql".to_string()];
    let got = next_migration_name(&names, "more");
    assert!(matches!(got, Err(NewNameError::NumberOverflow)));
}

#[test]
fn header_line_is_a_comment_naming_the_file() {
    assert_eq!(migration_header("3_baz.sql"), "-- Migration: 3_baz.sql\n");
    // The header is comment-only, so a fresh file hashes like an empty one.
    assert_eq!(
        hash_content(&migration_header("3_baz.sql")),
        hash_content("")
    );
}

#[test]
fn stamp_renders_fields_zero_padded() {
    assert_eq!(
        stamp_from_fields(2024, 1, 2, 3, 4, 5).as_deref(),
        Some("20240102030405")
    );
    assert_eq!(
        stamp_from_fields(987, 12, 31, 23, 59, 59).as_deref(),
        Some("09871231235959")
    );
}

#[test]
fn stamp_refuses_years_beyond_four_digits() {
    assert_eq!(stamp_from_fields(10000, 1, 1, 0, 0, 0), None);
    assert_eq!(stamp_from_fields(-1, 1, 1, 0, 0, 0), None);
}

#[test]
fn db_name_is_the_part_after_the_last_slash() {
    assert_eq!(db_name_of("postgres://host:5432/mydb"), "mydb");
    assert_eq!(db_name_of("nodash"), "nodash");
    assert_eq!(db_name_of("a/b/c"), "c");
}

#[test]
fn system_db_url_replaces_the_database() {
    assert_eq!(
        system_db_url_of("postgres://host:5432/mydb").as_deref(),
        Some("postgres://host:5432/postgres")
    );
    assert_eq!(system_db_url_of("noslash"), None);
}

#[test]
fn missing_database_errors_are_recognized() {
    assert!(should_create_database("FATAL: database \"mydb\" does not exist"));
    assert!(!should_create_database("FATAL: password authentication failed"));
    assert!(!should_create_database(""));
}
