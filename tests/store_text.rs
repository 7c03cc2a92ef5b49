use curdirmark::Bookmarks;

fn s(v: &str) -> String {
    v.to_string()
}

fn sorted(b: &Bookmarks) -> Vec<(String, String)> {
    let mut v = b.entries();
    v.sort();
    v
}

#[test]
fn empty_text_gives_empty_table() {
    let b = Bookmarks::parse("");
    assert!(b.entries().is_empty());
}

#[test]
fn reads_name_path_lines() {
    let b = Bookmarks::parse("work=/a\nhome=/b\n");
    assert_eq!(sorted(&b), vec![(s("home"), s("/b")), (s("work"), s("/a"))]);
    assert_eq!(b.get(&s("work")), Some(s("/a")));
    assert_eq!(b.get(&s("home")), Some(s("/b")));
    assert_eq!(b.get(&s("missing")), None);
}

#[test]
fn last_line_without_newline_is_read() {
    let b = Bookmarks::parse("work=/a\nhome=/b");
    assert_eq!(b.get(&s("home")), Some(s("/b")));
}

#[test]
fn later_line_wins() {
    let b = Bookmarks::parse("work=/a\nwork=/c\n");
    assert_eq!(sorted(&b), vec![(s("work"), s("/c"))]);
}

#[test]
fn bad_lines_are_dropped() {
    let b = Bookmarks::parse("no delimiter\nwork=/a\na=b=c\n\nhome=/b\n");
    assert_eq!(sorted(&b), vec![(s("home"), s("/b")), (s("work"), s("/a"))]);
}

#[test]
fn empty_sides_are_dropped() {
    let b = Bookmarks::parse("=/a\nwork=\n=\nok=/x\n");
    assert_eq!(sorted(&b), vec![(s("ok"), s("/x"))]);
}

#[test]
fn carriage_return_is_trimmed() {
    let b = Bookmarks::parse("work=/a\r\nhome=/b\r\n");
    assert_eq!(b.get(&s("work")), Some(s("/a")));
    assert_eq!(b.get(&s("home")), Some(s("/b")));
}

#[test]
fn non_ascii_text_is_kept() {
    let b = Bookmarks::parse("données=/home/été\n");
    assert_eq!(b.get(&s("données")), Some(s("/home/été")));
}

#[test]
fn writes_one_line_per_entry() {
    let mut b = Bookmarks::new();
    b.insert(s("work"), s("/a"));
    assert_eq!(b.to_text(), "work=/a\n");
    b.insert(s("home"), s("/b"));
    let text = b.to_text();
    let mut lines: Vec<&str> = text.lines().collect();
    lines.sort();
    assert_eq!(lines, vec!["home=/b", "work=/a"]);
    assert!(text.ends_with('\n'));
}

#[test]
fn save_then_load_gives_same_table() {
    let mut b = Bookmarks::new();
    b.insert(s("work"), s("/home/u/proj"));
    b.insert(s("home"), s("/home/u"));
    b.insert(s("tmp"), s("/tmp"));
    let back = Bookmarks::parse(&b.to_text());
    assert_eq!(sorted(&back), sorted(&b));
}

#[test]
fn insert_replaces_and_remove_takes_out() {
    let mut b = Bookmarks::new();
    b.insert(s("work"), s("/a"));
    b.insert(s("work"), s("/b"));
    assert_eq!(sorted(&b), vec![(s("work"), s("/b"))]);
    b.remove(&s("work"));
    assert!(b.entries().is_empty());
    b.remove(&s("work"));
    assert!(b.entries().is_empty());
}

#[test]
fn carriage_return_kept_on_unterminated_last_line() {
    let b = Bookmarks::parse("work=/a\r\nhome=/b\r");
    assert_eq!(b.get(&s("work")), Some(s("/a")));
    assert_eq!(b.get(&s("home")), Some(s("/b\r")));
}

#[test]
fn bad_last_line_is_dropped() {
    let b = Bookmarks::parse("work=/a\nno delimiter");
    assert_eq!(sorted(&b), vec![(s("work"), s("/a"))]);
    let b = Bookmarks::parse("work=/a\nx=y=z");
    assert_eq!(sorted(&b), vec![(s("work"), s("/a"))]);
}
