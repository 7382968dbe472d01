use gotts_oracle::comments::{comments, get_key, insert_comments};

#[test]
fn a_line_is_looked_up_by_its_name() {
    assert_eq!(get_key("[server]"), "[server]");
    assert_eq!(get_key("  [logging]  "), "  [logging]  ");
    assert_eq!(get_key("db_root = \"x\""), "db_root");
    assert_eq!(get_key(" \t log_max_size\u{a0} = 1 = 2"), "log_max_size");
    assert_eq!(get_key("=5"), "");
    assert_eq!(get_key("   = 5"), "");
    assert_eq!(get_key("a [b = c"), "a [b");
    assert_eq!(get_key("a]b[ = c"), "a]b[ = c");
    assert_eq!(get_key("no name here"), "NOT_FOUND");
    assert_eq!(get_key(""), "NOT_FOUND");
}

#[test]
fn the_table_has_a_comment_for_each_entry() {
    let table = comments();
    assert_eq!(table.len(), 13);
    let names: Vec<&str> = table.iter().map(|(k, _)| k.as_str()).collect();
    assert_eq!(
        names,
        vec![
            "[server]",
            "api_http_addr",
            "api_secret_path",
            "db_root",
            "[logging]",
            "log_to_stdout",
            "stdout_log_level",
            "log_to_file",
            "file_log_level",
            "log_file_path",
            "log_file_append",
            "log_max_size",
            "log_max_files"
        ]
    );
    assert_eq!(table[9].1, "\n#log file path\n");
    assert!(table[0].1.starts_with("\n# Generated Server Configuration File for Gotts Oracle\n"));
    assert!(table[0].1.ends_with("\n#Server connection details\n"));
}

#[test]
fn comments_go_before_their_lines() {
    let out = insert_comments("db_root = \"data\"\nunknown = 1\nlog_to_file = true".to_string());
    assert_eq!(
        out,
        "\n#the directory, relative to current, in which the gotts blockchain\n#is stored\n\
         db_root = \"data\"\nunknown = 1\n\n#whether to log to a file\nlog_to_file = true\n"
    );
}

#[test]
fn every_line_ends_with_a_line_feed() {
    assert_eq!(insert_comments(String::new()), "\n");
    assert_eq!(insert_comments("x".to_string()), "x\n");
    assert_eq!(insert_comments("x\n".to_string()), "x\n\n");
    assert_eq!(insert_comments("\n\n".to_string()), "\n\n\n");
    assert_eq!(insert_comments("é = 1\nü".to_string()), "é = 1\nü\n");
    let out = insert_comments("[logging]\n".to_string());
    assert!(out.starts_with("\n####"));
    assert!(out.ends_with("\n[logging]\n\n"));
}
