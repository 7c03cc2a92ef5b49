//! The bookmark table, its text form, and the rules for reading it back.

use vstd::prelude::*;
use vstd::string::*;

verus! {

/// The table of a sequence of `(name, path)` entries: a later entry for a
/// name replaces an earlier one.
pub open spec fn table_of(s: Seq<(Seq<char>, Seq<char>)>) -> Map<Seq<char>, Seq<char>>
    decreases s.len(),
{
    if s.len() == 0 {
        Map::empty()
    } else {
        table_of(s.drop_last()).insert(s.last().0, s.last().1)
    }
}

/// No name occurs in two entries.
pub open spec fn names_unique(s: Seq<(Seq<char>, Seq<char>)>) -> bool {
    forall|i: int, j: int| 0 <= i < j < s.len() ==> s[i].0 != s[j].0
}

/// A name has a path in the table exactly where some entry holds it.
pub proof fn lemma_table_domain(s: Seq<(Seq<char>, Seq<char>)>, k: Seq<char>)
    ensures
        table_of(s).contains_key(k) <==> exists|i: int| 0 <= i < s.len() && s[i].0 == k,
    decreases s.len(),
{
    if s.len() > 0 {
        lemma_table_domain(s.drop_last(), k);
        if table_of(s.drop_last()).contains_key(k) {
            let i = choose|i: int| 0 <= i < s.drop_last().len() && s.drop_last()[i].0 == k;
            assert(s[i].0 == k);
        }
        if exists|i: int| 0 <= i < s.len() && s[i].0 == k {
            let i = choose|i: int| 0 <= i < s.len() && s[i].0 == k;
            if i < s.len() - 1 {
                assert(s.drop_last()[i].0 == k);
            }
        }
    }
}

/// With distinct names, each entry's path is the one its name has in the table.
pub proof fn lemma_table_at(s: Seq<(Seq<char>, Seq<char>)>, i: int)
    requires
        names_unique(s),
        0 <= i < s.len(),
    ensures
        table_of(s).contains_key(s[i].0),
        table_of(s)[s[i].0] == s[i].1,
    decreases s.len(),
{
    if i < s.len() - 1 {
        lemma_table_at(s.drop_last(), i);
    }
}

proof fn lemma_table_remove(s: Seq<(Seq<char>, Seq<char>)>, i: int)
    requires
        names_unique(s),
        0 <= i < s.len(),
    ensures
        table_of(s.remove(i)) == table_of(s).remove(s[i].0),
    decreases s.len(),
{
    let k = s[i].0;
    let d = s.drop_last();
    if i == s.len() - 1 {
        assert(s.remove(i) =~= d);
        lemma_table_domain(d, k);
        assert(table_of(s).remove(k) =~= table_of(d));
    } else {
        assert(s.remove(i).drop_last() =~= d.remove(i));
        assert(s.remove(i).last() == s.last());
        lemma_table_remove(d, i);
        assert(table_of(s.remove(i)) =~= table_of(s).remove(k));
    }
}

/// `line` splits at `i`: the only `=` of the line stands there, with text on
/// both sides.
pub open spec fn splits_at(line: Seq<char>, i: int) -> bool {
    &&& 0 < i < line.len() - 1
    &&& line[i] == '='
    &&& forall|j: int| 0 <= j < line.len() && j != i ==> line[j] != '='
}

/// The entry that a line of the store file holds, if it holds one.
pub open spec fn entry_of_line(line: Seq<char>) -> Option<(Seq<char>, Seq<char>)> {
    if exists|i: int| splits_at(line, i) {
        let i = choose|i: int| splits_at(line, i);
        Some((line.take(i), line.skip(i + 1)))
    } else {
        None
    }
}

/// A line without the carriage return that may end it.
pub open spec fn trim_cr(line: Seq<char>) -> Seq<char> {
    if line.len() > 0 && line.last() == '\r' {
        line.drop_last()
    } else {
        line
    }
}

/// The table after one more line was read.
pub open spec fn add_line(t: Map<Seq<char>, Seq<char>>, line: Seq<char>) -> Map<
    Seq<char>,
    Seq<char>,
> {
    match entry_of_line(line) {
        Some(e) => t.insert(e.0, e.1),
        None => t,
    }
}

/// One character read: the table so far and the line under way.
pub open spec fn read_char(st: (Map<Seq<char>, Seq<char>>, Seq<char>), c: char) -> (
    Map<Seq<char>, Seq<char>>,
    Seq<char>,
) {
    if c == '\n' {
        (add_line(st.0, trim_cr(st.1)), Seq::empty())
    } else {
        (st.0, st.1.push(c))
    }
}

pub open spec fn reader() -> spec_fn((Map<Seq<char>, Seq<char>>, Seq<char>), char) -> (
    Map<Seq<char>, Seq<char>>,
    Seq<char>,
) {
    |st: (Map<Seq<char>, Seq<char>>, Seq<char>), c: char| read_char(st, c)
}

/// The state after reading `text` from the start.
pub open spec fn scan(text: Seq<char>) -> (Map<Seq<char>, Seq<char>>, Seq<char>) {
    text.fold_left((Map::empty(), Seq::empty()), reader())
}

/// The table that the text of a store file describes: each line that splits
/// at a single `=` sets its name to its path, later lines winning; every
/// other line is passed over. A carriage return is taken off a line only
/// where it stands just before the line break; a last line without a line
/// break is read as it is.
pub open spec fn parse_text(text: Seq<char>) -> Map<Seq<char>, Seq<char>> {
    add_line(scan(text).0, scan(text).1)
}

/// The line written for one entry.
pub open spec fn entry_text(name: Seq<char>, path: Seq<char>) -> Seq<char> {
    name + seq!['='] + path + seq!['\n']
}

/// The text written for a sequence of entries, one line each, in order.
pub open spec fn store_text(s: Seq<(Seq<char>, Seq<char>)>) -> Seq<char>
    decreases s.len(),
{
    if s.len() == 0 {
        Seq::empty()
    } else {
        store_text(s.drop_last()) + entry_text(s.last().0, s.last().1)
    }
}

/// A name that its line gives back.
pub open spec fn storable_name(k: Seq<char>) -> bool {
    &&& k.len() > 0
    &&& forall|j: int| 0 <= j < k.len() ==> k[j] != '=' && k[j] != '\n'
}

/// A path that its line gives back.
pub open spec fn storable_path(p: Seq<char>) -> bool {
    &&& storable_name(p)
    &&& p.last() != '\r'
}

/// Every entry of a table reads back from its line.
pub open spec fn storable(t: Map<Seq<char>, Seq<char>>) -> bool {
    forall|k: Seq<char>| #[trigger] t.contains_key(k) ==> storable_name(k) && storable_path(t[k])
}

proof fn lemma_scan_split(a: Seq<char>, b: Seq<char>)
    ensures
        (a + b).fold_left((Map::empty(), Seq::empty()), reader()) == b.fold_left(scan(a), reader()),
{
    let s = a + b;
    s.lemma_fold_left_split((Map::empty(), Seq::empty()), reader(), a.len() as int);
    assert(s.subrange(0, a.len() as int) =~= a);
    assert(s.subrange(a.len() as int, s.len() as int) =~= b);
}

proof fn lemma_read_plain(st: (Map<Seq<char>, Seq<char>>, Seq<char>), w: Seq<char>)
    requires
        forall|j: int| 0 <= j < w.len() ==> w[j] != '\n',
    ensures
        w.fold_left(st, reader()) == (st.0, st.1 + w),
    decreases w.len(),
{
    if w.len() == 0 {
        assert(st.1 + w =~= st.1);
    } else {
        lemma_read_plain(st, w.drop_last());
        assert(st.1 + w.drop_last() + seq![w.last()] =~= st.1 + w);
    }
}

proof fn lemma_entry_line(k: Seq<char>, v: Seq<char>)
    requires
        storable_name(k),
        storable_path(v),
    ensures
        forall|t: Map<Seq<char>, Seq<char>>| add_line(t, trim_cr(k + seq!['='] + v)) == t.insert(k, v),
{
    let line = k + seq!['='] + v;
    let n = k.len() as int;
    assert(line.last() == v.last());
    assert(trim_cr(line) == line);
    assert(splits_at(line, n));
    let i = choose|i: int| splits_at(line, i);
    assert(i == n) by {
        if i != n {
            assert(line[n] == '=');
        }
    }
    assert(line.take(n) =~= k);
    assert(line.skip(n + 1) =~= v);
}

proof fn lemma_scan_store_text(s: Seq<(Seq<char>, Seq<char>)>)
    requires
        forall|i: int| 0 <= i < s.len() ==> storable_name(#[trigger] s[i].0) && storable_path(s[i].1),
    ensures
        scan(store_text(s)) == (table_of(s), Seq::<char>::empty()),
    decreases s.len(),
{
    if s.len() > 0 {
        let d = s.drop_last();
        let (k, v) = s.last();
        lemma_scan_store_text(d);
        let w = k + seq!['='] + v;
        let e = entry_text(k, v);
        lemma_scan_split(store_text(d), e);
        assert(e.drop_last() =~= w);
        assert(w.len() == k.len() + 1 + v.len());
        assert(forall|j: int| 0 <= j < w.len() ==> w[j] != '\n') by {
            assert forall|j: int| 0 <= j < w.len() implies w[j] != '\n' by {
                if j < k.len() {
                    assert(w[j] == k[j]);
                } else if j > k.len() {
                    assert(w[j] == v[j - k.len() - 1]);
                }
            }
        }
        lemma_read_plain((table_of(d), Seq::empty()), w);
        assert(Seq::<char>::empty() + w =~= w);
        lemma_entry_line(k, v);
    }
}

/// Saving a table and loading the file back gives the same table, for every
/// table whose names and paths hold no `=` or line break, are not empty, and
/// whose paths do not end in a carriage return.
pub proof fn lemma_save_then_load(b: Bookmarks)
    requires
        b.wf(),
        storable(b@),
    ensures
        parse_text(store_text(b.pairs())) == b@,
{
    let s = b.pairs();
    assert forall|i: int| 0 <= i < s.len() implies storable_name(#[trigger] s[i].0) && storable_path(s[i].1) by {
        lemma_table_at(s, i);
    }
    lemma_scan_store_text(s);
    assert(!exists|i: int| splits_at(Seq::<char>::empty(), i));
}

proof fn lemma_bad_line(line: Seq<char>)
    requires
        (forall|j: int| 0 <= j < line.len() ==> line[j] != '=') || (exists|i: int, j: int|
            0 <= i < j < line.len() && line[i] == '=' && line[j] == '='),
    ensures
        entry_of_line(line) is None,
{
    if exists|i: int| splits_at(line, i) {
        let i = choose|i: int| splits_at(line, i);
        if exists|p: int, q: int| 0 <= p < q < line.len() && line[p] == '=' && line[q] == '=' {
            let (p, q) = choose|p: int, q: int|
                0 <= p < q < line.len() && line[p] == '=' && line[q] == '=';
            assert(line[p] == '=' && line[q] == '=');
        } else {
            assert(line[i] == '=');
        }
    }
}

/// A last line, without a line break, that holds no `=`, or two or more, is
/// passed over: the text reads as it would without it.
pub proof fn lemma_bad_last_line_dropped(before: Seq<char>, line: Seq<char>)
    requires
        before.len() == 0 || before.last() == '\n',
        forall|j: int| 0 <= j < line.len() ==> line[j] != '\n',
        (forall|j: int| 0 <= j < line.len() ==> line[j] != '=') || (exists|i: int, j: int|
            0 <= i < j < line.len() && line[i] == '=' && line[j] == '='),
    ensures
        parse_text(before + line) == parse_text(before),
{
    lemma_bad_line(line);
    let st = scan(before);
    assert(st.1 == Seq::<char>::empty()) by {
        if before.len() > 0 {
            assert(before.drop_last().push(before.last()) =~= before);
        }
    }
    lemma_scan_split(before, line);
    lemma_read_plain(st, line);
    assert(st.1 + line =~= line);
    assert(!exists|i: int| splits_at(Seq::<char>::empty(), i));
}

/// A line with no `=`, or with two or more, is passed over: the lines around
/// it read as they would without it.
pub proof fn lemma_bad_line_dropped(before: Seq<char>, line: Seq<char>, after: Seq<char>)
    requires
        before.len() == 0 || before.last() == '\n',
        forall|j: int| 0 <= j < line.len() ==> line[j] != '\n',
        (forall|j: int| 0 <= j < line.len() ==> line[j] != '=') || (exists|i: int, j: int|
            0 <= i < j < line.len() && line[i] == '=' && line[j] == '='),
    ensures
        parse_text(before + line + seq!['\n'] + after) == parse_text(before + after),
{
    let l = trim_cr(line);
    lemma_bad_line(line);
    assert(entry_of_line(l) is None) by {
        if exists|i: int| splits_at(l, i) {
            let i = choose|i: int| splits_at(l, i);
            if exists|p: int, q: int| 0 <= p < q < line.len() && line[p] == '=' && line[q] == '=' {
                let (p, q) = choose|p: int, q: int|
                    0 <= p < q < line.len() && line[p] == '=' && line[q] == '=';
                assert(l[p] == '=' && l[q] == '=');
            } else {
                assert(l[i] == line[i]);
            }
        }
    }
    let st = scan(before);
    assert(st.1 == Seq::<char>::empty()) by {
        if before.len() > 0 {
            assert(before.drop_last().push(before.last()) =~= before);
        }
    }
    let head = before + line + seq!['\n'];
    lemma_scan_split(before, line + seq!['\n']);
    assert(before + (line + seq!['\n']) =~= head);
    assert((line + seq!['\n']).drop_last() =~= line);
    lemma_read_plain(st, line);
    assert(st.1 + line =~= line);
    assert(scan(head) == st);
    lemma_scan_split(head, after);
    lemma_scan_split(before, after);
    assert(head + after =~= before + line + seq!['\n'] + after);
}

/// The line as it is read: without a carriage return just before its line
/// break, where it had one.
pub open spec fn line_read(line: Seq<char>, broken: bool) -> Seq<char> {
    if broken {
        trim_cr(line)
    } else {
        line
    }
}

/// Reads one line of a store file (without its line break, where `broken`
/// says it had one) as an entry; the line stands in `text` from `start` on.
fn read_line(text: &str, start: usize, line: &Vec<char>, broken: bool) -> (r: Option<(String, String)>)
    requires
        text@.len() <= usize::MAX,
        start + line@.len() <= text@.len(),
        line@ == text@.subrange(start as int, start + line@.len()),
    ensures
        r matches Some(e) ==> entry_of_line(line_read(line@, broken)) == Some((e.0@, e.1@)),
        r is None ==> entry_of_line(line_read(line@, broken)) is None,
{
    let mut end: usize = line.len();
    if broken && end > 0 && line[end - 1] == '\r' {
        end = end - 1;
    }
    let ghost l = line_read(line@, broken);
    assert(l =~= line@.take(end as int));
    let mut first: Option<usize> = None;
    let mut many = false;
    let mut j: usize = 0;
    while j < end
        invariant
            j <= end <= line@.len(),
            l == line@.take(end as int),
            first is None ==> !many && forall|q: int| 0 <= q < j ==> l[q] != '=',
            first matches Some(p) ==> p < j && l[p as int] == '=' && (!many ==> forall|q: int|
                0 <= q < j && q != p ==> l[q] != '='),
            many ==> exists|a: int, b: int| 0 <= a < b < l.len() && l[a] == '=' && l[b] == '=',
        decreases end - j,
    {
        if line[j] == '=' {
            match first {
                None => {
                    first = Some(j);
                },
                Some(p) => {
                    assert(l[p as int] == '=' && l[j as int] == '=');
                    many = true;
                },
            }
        }
        j = j + 1;
    }
    if many {
        assert(!exists|i: int| splits_at(l, i)) by {
            if exists|i: int| splits_at(l, i) {
                let i = choose|i: int| splits_at(l, i);
                let (a, b) = choose|a: int, b: int|
                    0 <= a < b < l.len() && l[a] == '=' && l[b] == '=';
                assert(l[a] == '=' && l[b] == '=');
            }
        }
        return None;
    }
    match first {
        None => {
            assert(!exists|i: int| splits_at(l, i)) by {
                if exists|i: int| splits_at(l, i) {
                    let i = choose|i: int| splits_at(l, i);
                    assert(l[i] == '=');
                }
            }
            None
        },
        Some(p) => {
            if p == 0 || p + 1 >= end {
                assert(!exists|i: int| splits_at(l, i)) by {
                    if exists|i: int| splits_at(l, i) {
                        let i = choose|i: int| splits_at(l, i);
                        assert(l[i] == '=');
                    }
                }
                return None;
            }
            assert(splits_at(l, p as int));
            let ghost i = choose|i: int| splits_at(l, i);
            assert(i == p) by {
                if i != p {
                    assert(l[p as int] == '=');
                }
            }
            let name = text.substring_char(start, start + p).to_owned();
            let path = text.substring_char(start + p + 1, start + end).to_owned();
            assert(name@ =~= l.take(p as int));
            assert(path@ =~= l.skip(p + 1));
            Some((name, path))
        },
    }
}

/// A table of one entry is kept as exactly that entry, so its text is the
/// one line `name=path`.
pub proof fn lemma_single_entry(s: Seq<(Seq<char>, Seq<char>)>, name: Seq<char>, path: Seq<char>)
    requires
        names_unique(s),
        table_of(s) == Map::<Seq<char>, Seq<char>>::empty().insert(name, path),
    ensures
        s == seq![(name, path)],
        store_text(s) == entry_text(name, path),
{
    lemma_table_domain(s, name);
    let i = choose|i: int| 0 <= i < s.len() && s[i].0 == name;
    lemma_table_at(s, i);
    assert forall|j: int| 0 <= j < s.len() implies #[trigger] s[j].0 == name && j == i by {
        lemma_table_domain(s, s[j].0);
        assert(table_of(s).contains_key(s[j].0));
    }
    assert(s.len() == 1) by {
        if s.len() > 1 {
            let j = if i == 0 { 1int } else { 0int };
            assert(s[j].0 == name);
        }
    }
    assert(s =~= seq![(name, path)]);
    assert(s.drop_last() =~= Seq::<(Seq<char>, Seq<char>)>::empty());
    assert(store_text(s.drop_last()) == Seq::<char>::empty());
    assert(Seq::<char>::empty() + entry_text(name, path) =~= entry_text(name, path));
}

/// Entries of strings as entries of character sequences.
pub open spec fn entries_view(v: Seq<(String, String)>) -> Seq<(Seq<char>, Seq<char>)> {
    v.map_values(|e: (String, String)| (e.0@, e.1@))
}

/// A name→path table, kept as a list of entries with distinct names.
pub struct Bookmarks {
    entries: Vec<(String, String)>,
}

impl Bookmarks {
    /// The entries as character sequences, in the order they are kept.
    pub closed spec fn pairs(&self) -> Seq<(Seq<char>, Seq<char>)> {
        entries_view(self.entries@)
    }

    pub open spec fn wf(&self) -> bool {
        names_unique(self.pairs())
    }

    /// The table that the entries describe.
    pub open spec fn view(&self) -> Map<Seq<char>, Seq<char>> {
        table_of(self.pairs())
    }

    pub fn new() -> (r: Bookmarks)
        ensures
            r.wf(),
            r@ == Map::<Seq<char>, Seq<char>>::empty(),
            r.pairs() == Seq::<(Seq<char>, Seq<char>)>::empty(),
    {
        let r = Bookmarks { entries: Vec::new() };
        assert(r.pairs() =~= Seq::<(Seq<char>, Seq<char>)>::empty());
        r
    }

    fn find(&self, name: &String) -> (r: Option<usize>)
        ensures
            r matches Some(i) ==> i < self.pairs().len() && self.pairs()[i as int].0 == name@,
            r is None ==> forall|i: int| 0 <= i < self.pairs().len() ==> self.pairs()[i].0 != name@,
    {
        let mut i: usize = 0;
        while i < self.entries.len()
            invariant
                i <= self.entries.len(),
                self.pairs().len() == self.entries@.len(),
                forall|j: int| 0 <= j < i ==> self.pairs()[j].0 != name@,
            decreases self.entries.len() - i,
        {
            if self.entries[i].0 == *name {
                return Some(i);
            }
            i = i + 1;
        }
        None
    }

    /// Reads the text of a store file. Each line that splits at a single `=`
    /// with text on both sides sets that name to that path, later lines
    /// winning; every other line is passed over.
    pub fn parse(text: &str) -> (r: Bookmarks)
        ensures
            r.wf(),
            r@ == parse_text(text@),
    {
        let n = text.unicode_len();
        let mut b = Bookmarks::new();
        let mut line: Vec<char> = Vec::new();
        let mut start: usize = 0;
        for c in iter: text.chars()
            invariant
                n == text@.len(),
                iter.seq() == text@,
                b.wf(),
                start + line@.len() == iter.index(),
                line@ == text@.subrange(start as int, iter.index()),
                scan(text@.take(iter.index())) == (b@, line@),
        {
            let ghost i = iter.index();
            assert(c == text@[i]);
            assert(text@.take(i + 1).drop_last() =~= text@.take(i));
            if c == '\n' {
                if let Some(e) = read_line(text, start, &line, true) {
                    b.insert(e.0, e.1);
                }
                start = start + line.len() + 1;
                line = Vec::new();
                assert(line@ =~= text@.subrange(start as int, i + 1));
            } else {
                line.push(c);
                assert(line@ =~= text@.subrange(start as int, i + 1));
            }
        }
        if let Some(e) = read_line(text, start, &line, false) {
            b.insert(e.0, e.1);
        }
        assert(text@.take(text@.len() as int) =~= text@);
        b
    }

    /// The text of the store file for this table: one `name=path` line per
    /// entry.
    pub fn to_text(&self) -> (r: String)
        requires
            self.wf(),
        ensures
            r@ == store_text(self.pairs()),
            names_unique(self.pairs()),
            table_of(self.pairs()) == self@,
    {
        let mut out = String::new();
        let mut i: usize = 0;
        while i < self.entries.len()
            invariant
                i <= self.entries@.len(),
                self.pairs().len() == self.entries@.len(),
                out@ == store_text(self.pairs().take(i as int)),
            decreases self.entries.len() - i,
        {
            proof {
                reveal_strlit("=");
                reveal_strlit("\n");
            }
            let ghost before = out@;
            let ghost e = self.pairs()[i as int];
            assert(e == (self.entries@[i as int].0@, self.entries@[i as int].1@));
            out.append(self.entries[i].0.as_str());
            assert(out@ == before + e.0);
            out.append("=");
            assert(out@ =~= before + e.0 + seq!['=']);
            out.append(self.entries[i].1.as_str());
            assert(out@ == before + e.0 + seq!['='] + e.1);
            out.append("\n");
            assert(out@ =~= before + e.0 + seq!['='] + e.1 + seq!['\n']);
            assert(before + e.0 + seq!['='] + e.1 + seq!['\n'] =~= before + entry_text(e.0, e.1));
            assert(self.pairs().take(i + 1).drop_last() =~= self.pairs().take(i as int));
            i = i + 1;
        }
        assert(self.pairs().take(i as int) =~= self.pairs());
        out
    }

    /// The entries, in the order they are kept.
    pub fn entries(&self) -> (r: Vec<(String, String)>)
        ensures
            entries_view(r@) == self.pairs(),
    {
        let mut r: Vec<(String, String)> = Vec::new();
        let mut i: usize = 0;
        while i < self.entries.len()
            invariant
                i <= self.entries@.len(),
                self.pairs().len() == self.entries@.len(),
                entries_view(r@) == self.pairs().take(i as int),
            decreases self.entries.len() - i,
        {
            let e = (self.entries[i].0.clone(), self.entries[i].1.clone());
            assert(self.pairs()[i as int] == (e.0@, e.1@));
            let ghost before = r@;
            assert(entries_view(before).len() == before.len());
            assert(before.len() == i);
            r.push(e);
            assert(entries_view(r@).len() == i + 1);
            assert(r@ == before.push(e));
            assert forall|j: int| 0 <= j <= i implies #[trigger] entries_view(r@)[j] == self.pairs()[j] by {
                if j < i {
                    assert(entries_view(before)[j] == self.pairs().take(i as int)[j]);
                }
            }
            assert(entries_view(r@) =~= self.pairs().take(i + 1));
            i = i + 1;
        }
        assert(self.pairs().take(i as int) =~= self.pairs());
        r
    }

    /// Whether `name` has a path, and if so which.
    pub fn get(&self, name: &String) -> (r: Option<String>)
        requires
            self.wf(),
        ensures
            r is Some <==> self@.contains_key(name@),
            r matches Some(p) ==> p@ == self@[name@],
    {
        proof {
            lemma_table_domain(self.pairs(), name@);
        }
        match self.find(name) {
            Some(i) => {
                proof {
                    lemma_table_at(self.pairs(), i as int);
                }
                Some(self.entries[i].1.clone())
            },
            None => None,
        }
    }

    /// Sets the path of `name`, replacing any earlier one.
    pub fn insert(&mut self, name: String, path: String)
        requires
            old(self).wf(),
        ensures
            final(self).wf(),
            final(self)@ == old(self)@.insert(name@, path@),
    {
        let ghost k = name@;
        match self.find(&name) {
            Some(i) => {
                proof {
                    lemma_table_remove(self.pairs(), i as int);
                }
                let ghost before = self.pairs();
                self.entries.remove(i);
                assert(self.pairs() =~= before.remove(i as int));
            },
            None => {
                proof {
                    lemma_table_domain(self.pairs(), k);
                    assert(table_of(self.pairs()).remove(k) =~= table_of(self.pairs()));
                }
            },
        }
        let ghost mid = self.pairs();
        let ghost t = self@;
        assert(forall|j: int| 0 <= j < mid.len() ==> mid[j].0 != k);
        self.entries.push((name, path));
        assert(self.pairs() =~= mid.push((k, path@)));
        assert(self.pairs().drop_last() =~= mid);
        assert(self@ =~= t.insert(k, path@));
    }

    /// Takes `name` out of the table; the table is unchanged where it is absent.
    pub fn remove(&mut self, name: &String)
        requires
            old(self).wf(),
        ensures
            final(self).wf(),
            final(self)@ == old(self)@.remove(name@),
    {
        match self.find(name) {
            Some(i) => {
                proof {
                    lemma_table_remove(self.pairs(), i as int);
                }
                let ghost before = self.pairs();
                self.entries.remove(i);
                assert(self.pairs() =~= before.remove(i as int));
            },
            None => {
                proof {
                    lemma_table_domain(self.pairs(), name@);
                    assert(table_of(self.pairs()).remove(name@) =~= table_of(self.pairs()));
                }
            },
        }
    }
}

} // verus!
