use curdirmark::{Config, Query};

fn args(v: &[&str]) -> Vec<String> {
    v.iter().map(|a| a.to_string()).collect()
}

fn build(v: &[&str]) -> Config {
    Config::build(args(v), "/work/dir".to_string(), Some("/home/u".to_string())).unwrap()
}

#[test]
fn save_wins_over_show() {
    let c = build(&["curdirmark", "-s", "foo", "-o", "bar"]);
    assert_eq!(c.query, Query::Save);
    assert_eq!(c.bookmark, "foo");
    assert_eq!(c.path, "/work/dir");
    assert_eq!(c.program, "curdirmark");
}

#[test]
fn show_wins_over_delete() {
    let c = build(&["curdirmark", "-d", "x", "-o", "bar"]);
    assert_eq!(c.query, Query::Show);
    assert_eq!(c.bookmark, "bar");
    let c = build(&["curdirmark", "--delete", "x"]);
    assert_eq!(c.query, Query::Delete);
    assert_eq!(c.bookmark, "x");
}

#[test]
fn help_wins_over_everything() {
    let c = build(&["curdirmark", "-s", "foo", "-l", "-h", "-d", "x"]);
    assert_eq!(c.query, Query::Help);
    assert_eq!(c.bookmark, "");
    assert!(!c.unspecified);
    assert!(!c.query.reads_store());
}

#[test]
fn list_then_remove_database() {
    let c = build(&["curdirmark", "-s", "foo", "-l", "-r", "db"]);
    assert_eq!(c.query, Query::List);
    let c = build(&["curdirmark", "-s", "foo", "-r", "db"]);
    assert_eq!(c.query, Query::RemoveDatabase);
}

#[test]
fn nothing_named_falls_back_to_help() {
    let c = build(&["curdirmark"]);
    assert_eq!(c.query, Query::Help);
    assert!(c.unspecified);
}

#[test]
fn store_location_defaults_and_override() {
    let c = build(&["curdirmark", "-l"]);
    assert_eq!(c.local_db, "/home/u/.curdirmarkdb");
    let c = build(&["curdirmark", "-l", "-b", "/tmp/marks"]);
    assert_eq!(c.local_db, "/tmp/marks");
    let c = Config::build(args(&["curdirmark", "-l"]), "/w".to_string(), None).unwrap();
    assert_eq!(c.local_db, "./.curdirmarkdb");
}

#[test]
fn bad_command_lines_fail() {
    let e = Config::build(args(&["curdirmark", "-x"]), "/w".to_string(), None);
    assert!(e.is_err());
    let e = Config::build(args(&["curdirmark", "-s"]), "/w".to_string(), None);
    match e {
        Err(message) => assert!(message.contains("s")),
        Ok(_) => panic!("a missing argument must fail"),
    }
}

#[test]
fn long_names_select_the_same_actions() {
    let c = build(&["curdirmark", "--save", "foo", "--database", "/tmp/db"]);
    assert_eq!(c.query, Query::Save);
    assert_eq!(c.bookmark, "foo");
    assert_eq!(c.local_db, "/tmp/db");
    let c = build(&["curdirmark", "--help"]);
    assert_eq!(c.query, Query::Help);
    let c = build(&["curdirmark", "--list"]);
    assert_eq!(c.query, Query::List);
}

#[test]
fn failure_message_names_the_option() {
    let e = Config::build(args(&["curdirmark", "-x"]), "/w".to_string(), None);
    match e {
        Err(message) => assert_eq!(message, "Unrecognized option: 'x'"),
        Ok(_) => panic!("an unknown option must fail"),
    }
}
