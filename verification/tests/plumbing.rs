//! The request plumbing around the search core: sort directives, request
//! parameters, the store configuration, and argument parsing.

use book_search::args::{parse_args, ProgArgs};
use book_search::serve::resolve_sort;
use book_search::sql::{get_sql_path_val, is_valid_sort, set_sql_path_val, SqlPathConfig};

#[test]
fn valid_sorts_are_asc_and_desc_case_insensitively() {
    assert!(is_valid_sort("ASC"));
    assert!(is_valid_sort("asc"));
    assert!(is_valid_sort("Asc"));
    assert!(is_valid_sort("DESC"));
    assert!(is_valid_sort("desc"));
    assert!(!is_valid_sort("down"));
    assert!(!is_valid_sort(""));
    assert!(!is_valid_sort("ASCENDING"));
}

#[test]
fn resolve_sort_defaults_to_asc() {
    assert_eq!(resolve_sort(&None), "ASC");
    assert_eq!(resolve_sort(&Some("desc".to_string())), "desc");
    assert_eq!(resolve_sort(&Some("DESC".to_string())), "DESC");
    assert_eq!(resolve_sort(&Some("sideways".to_string())), "ASC");
}

#[test]
fn sql_path_config_round_trip() {
    let mut cfg = SqlPathConfig::new();
    assert_eq!(get_sql_path_val(&cfg), "");
    set_sql_path_val(&mut cfg, "/var/lib/books.sqlite");
    assert_eq!(get_sql_path_val(&cfg), "/var/lib/books.sqlite");
    set_sql_path_val(&mut cfg, "other.db");
    assert_eq!(get_sql_path_val(&cfg), "other.db");
}

#[test]
fn default_args() {
    let d = ProgArgs::default_value();
    assert_eq!(d.port, "8081");
    assert_eq!(d.sql_path, "./db.sqlite");
}

fn args_of(parts: Vec<&str>) -> Vec<String> {
    let mut v: Vec<String> = Vec::new();
    for p in parts {
        v.push(p.to_string());
    }
    v
}

#[test]
fn parse_args_without_flags_keeps_defaults() {
    let r = parse_args(args_of(vec!["prog"])).unwrap();
    assert_eq!(r.port, "8081");
    assert_eq!(r.sql_path, "./db.sqlite");
}

#[test]
fn parse_args_reads_port_and_database() {
    let r = parse_args(args_of(vec!["prog", "-p", "9090"])).unwrap();
    assert_eq!(r.port, "9090");
    assert_eq!(r.sql_path, "./db.sqlite");
    let r = parse_args(args_of(vec!["prog", "--port", "7000", "--databse", "/tmp/x.db"])).unwrap();
    assert_eq!(r.port, "7000");
    assert_eq!(r.sql_path, "/tmp/x.db");
    let r = parse_args(args_of(vec!["prog", "-d", "a.db"])).unwrap();
    assert_eq!(r.sql_path, "a.db");
}

#[test]
fn parse_args_flag_without_value_keeps_default() {
    let r = parse_args(args_of(vec!["prog", "-p"])).unwrap();
    assert_eq!(r.port, "8081");
}

#[test]
fn parse_args_ignores_unknown_and_takes_last_value() {
    let r = parse_args(args_of(vec!["prog", "--verbose", "-p", "1234", "-p", "4321"])).unwrap();
    assert_eq!(r.port, "4321");
}
