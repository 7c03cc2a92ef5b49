use curdirmark::config::gen_options;
use curdirmark::{run, Bookmarks, Config, Outcome, Query};

fn s(v: &str) -> String {
    v.to_string()
}

fn config(query: Query, bookmark: &str, path: &str) -> Config {
    Config {
        local_db: s("/tmp/db"),
        program: s("curdirmark"),
        query,
        bookmark: s(bookmark),
        path: s(path),
        options: gen_options(),
        unspecified: false,
    }
}

fn sorted(b: &Bookmarks) -> Vec<(String, String)> {
    let mut v = b.entries();
    v.sort();
    v
}

fn written(o: Outcome) -> Bookmarks {
    match o {
        Outcome::Write(b) => b,
        _ => panic!("expected a table to write"),
    }
}

#[test]
fn save_into_empty_store() {
    let stored = Bookmarks::parse("");
    let out = run(&config(Query::Save, "work", "/home/u/proj"), stored);
    let b = written(out);
    assert_eq!(sorted(&b), vec![(s("work"), s("/home/u/proj"))]);
    assert_eq!(b.to_text(), "work=/home/u/proj\n");
}

#[test]
fn show_present_and_missing() {
    let out = run(&config(Query::Show, "work", "/x"), Bookmarks::parse("work=/a\n"));
    match out {
        Outcome::Print(p) => assert_eq!(p, "/a"),
        _ => panic!("expected a path"),
    }
    let out = run(&config(Query::Show, "missing", "/x"), Bookmarks::parse("work=/a\n"));
    assert!(matches!(out, Outcome::Nothing));
}

#[test]
fn delete_one_of_two() {
    let out = run(&config(Query::Delete, "work", "/x"), Bookmarks::parse("work=/a\nhome=/b\n"));
    let b = written(out);
    assert_eq!(sorted(&b), vec![(s("home"), s("/b"))]);
}

#[test]
fn delete_absent_keeps_table() {
    let out = run(&config(Query::Delete, "other", "/x"), Bookmarks::parse("work=/a\nhome=/b\n"));
    let b = written(out);
    assert_eq!(sorted(&b), vec![(s("home"), s("/b")), (s("work"), s("/a"))]);
}

#[test]
fn save_twice_keeps_latest() {
    let first = written(run(&config(Query::Save, "work", "/first"), Bookmarks::new()));
    let second = written(run(&config(Query::Save, "work", "/second"), first));
    assert_eq!(second.get(&s("work")), Some(s("/second")));
    assert_eq!(sorted(&second), vec![(s("work"), s("/second"))]);
}

#[test]
fn list_gives_whole_table() {
    let out = run(&config(Query::List, "", "/x"), Bookmarks::parse("work=/a\nhome=/b\n"));
    match out {
        Outcome::Listing(b) => {
            assert_eq!(sorted(&b), vec![(s("home"), s("/b")), (s("work"), s("/a"))])
        },
        _ => panic!("expected a listing"),
    }
}

#[test]
fn help_and_remove_database_touch_nothing() {
    assert!(matches!(run(&config(Query::Help, "", "/x"), Bookmarks::new()), Outcome::Usage));
    assert!(matches!(
        run(&config(Query::RemoveDatabase, "", "/x"), Bookmarks::new()),
        Outcome::NotImplemented
    ));
}

#[test]
fn which_actions_read_the_store() {
    assert!(Query::Save.reads_store());
    assert!(Query::Show.reads_store());
    assert!(Query::Delete.reads_store());
    assert!(Query::List.reads_store());
    assert!(!Query::Help.reads_store());
    assert!(!Query::RemoveDatabase.reads_store());
}
