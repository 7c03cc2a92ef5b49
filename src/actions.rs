//! The actions that one invocation can perform, and the dispatch between them.
//!
//! Reading and writing the store file happen around these functions: an
//! action that needs the table is handed the table as it was read, and says
//! in its outcome whether a new table is to be written.

use vstd::prelude::*;

use crate::config::Config;
use crate::store::Bookmarks;

verus! {

/// The one action selected for an invocation.
#[derive(PartialEq, Eq, Structural, Clone, Copy, Debug)]
pub enum Query {
    Save,
    Show,
    Delete,
    List,
    RemoveDatabase,
    Help,
}

impl Query {
    /// The action reads the store before it acts.
    pub open spec fn spec_reads_store(&self) -> bool {
        match self {
            Query::Save | Query::Show | Query::Delete | Query::List => true,
            _ => false,
        }
    }

    /// The action rewrites the store.
    pub open spec fn mutates(&self) -> bool {
        *self == Query::Save || *self == Query::Delete
    }

    #[verifier::when_used_as_spec(spec_reads_store)]
    pub fn reads_store(&self) -> (r: bool)
        ensures
            r == self.spec_reads_store(),
    {
        match self {
            Query::Save | Query::Show | Query::Delete | Query::List => true,
            _ => false,
        }
    }
}

/// What an action asks of the caller once it is done.
pub enum Outcome {
    /// Rewrite the store with this table.
    Write(Bookmarks),
    /// Print this path.
    Print(String),
    /// Print this whole table.
    Listing(Bookmarks),
    /// Print the usage text.
    Usage,
    /// The action is not implemented; the process must stop.
    NotImplemented,
    /// Nothing to do.
    Nothing,
}

/// Bookmarks the working directory under the given name.
#[derive(Debug)]
pub struct Save {}

impl Save {
    pub fn execute(&self, config: &Config, stored: Bookmarks) -> (r: Outcome)
        requires
            stored.wf(),
        ensures
            r matches Outcome::Write(b) && b.wf() && b@ == stored@.insert(
                config.bookmark@,
                config.path@,
            ),
    {
        let mut b = stored;
        b.insert(config.bookmark.clone(), config.path.clone());
        Outcome::Write(b)
    }
}

/// Prints the usage text.
#[derive(Debug)]
pub struct Help {}

impl Help {
    pub fn execute(&self, _config: &Config, _stored: Bookmarks) -> (r: Outcome)
        ensures
            r is Usage,
    {
        Outcome::Usage
    }
}

/// Shows the whole table.
#[derive(Debug)]
pub struct List {}

impl List {
    pub fn execute(&self, _config: &Config, stored: Bookmarks) -> (r: Outcome)
        requires
            stored.wf(),
        ensures
            r matches Outcome::Listing(b) && b.wf() && b@ == stored@,
    {
        Outcome::Listing(stored)
    }
}

/// Removes the store file: not implemented.
#[derive(Debug)]
pub struct RemoveDB {}

impl RemoveDB {
    pub fn execute(&self, _config: &Config, _stored: Bookmarks) -> (r: Outcome)
        ensures
            r is NotImplemented,
    {
        Outcome::NotImplemented
    }
}

/// Shows the path of one bookmark; a name without one shows nothing.
#[derive(Debug)]
pub struct ShowBookmark {}

impl ShowBookmark {
    pub fn execute(&self, config: &Config, stored: Bookmarks) -> (r: Outcome)
        requires
            stored.wf(),
        ensures
            stored@.contains_key(config.bookmark@) ==> (r matches Outcome::Print(p) && p@
                == stored@[config.bookmark@]),
            !stored@.contains_key(config.bookmark@) ==> r is Nothing,
    {
        match stored.get(&config.bookmark) {
            Some(p) => Outcome::Print(p),
            None => Outcome::Nothing,
        }
    }
}

/// Deletes one bookmark; the store is rewritten whether or not it was there.
#[derive(Debug)]
pub struct DeleteBookmark {}

impl DeleteBookmark {
    pub fn execute(&self, config: &Config, stored: Bookmarks) -> (r: Outcome)
        requires
            stored.wf(),
        ensures
            r matches Outcome::Write(b) && b.wf() && b@ == stored@.remove(config.bookmark@),
    {
        let mut b = stored;
        b.remove(&config.bookmark);
        Outcome::Write(b)
    }
}

/// Performs the selected action on the table as it was read (an empty table
/// for an action that does not read the store).
pub fn run(config: &Config, stored: Bookmarks) -> (r: Outcome)
    requires
        stored.wf(),
    ensures
        r is Write <==> config.query.mutates(),
        config.query == Query::Save ==> (r matches Outcome::Write(b) && b.wf() && b@
            == stored@.insert(config.bookmark@, config.path@)),
        config.query == Query::Delete ==> (r matches Outcome::Write(b) && b.wf() && b@
            == stored@.remove(config.bookmark@)),
        config.query == Query::Show && stored@.contains_key(config.bookmark@) ==> (r matches Outcome::Print(p)
            && p@ == stored@[config.bookmark@]),
        config.query == Query::Show && !stored@.contains_key(config.bookmark@) ==> r is Nothing,
        config.query == Query::List ==> (r matches Outcome::Listing(b) && b.wf() && b@ == stored@),
        config.query == Query::RemoveDatabase ==> r is NotImplemented,
        config.query == Query::Help ==> r is Usage,
{
    match config.query {
        Query::Save => Save {}.execute(config, stored),
        Query::Show => ShowBookmark {}.execute(config, stored),
        Query::Delete => DeleteBookmark {}.execute(config, stored),
        Query::List => List {}.execute(config, stored),
        Query::RemoveDatabase => RemoveDB {}.execute(config, stored),
        Query::Help => Help {}.execute(config, stored),
    }
}

/// Deleting a name that has no bookmark leaves the table as it was.
pub proof fn lemma_delete_absent(t: Map<Seq<char>, Seq<char>>, name: Seq<char>)
    requires
        !t.contains_key(name),
    ensures
        t.remove(name) == t,
{
    assert(t.remove(name) =~= t);
}

/// Saving a name twice keeps only the later path: the table is the one that
/// the second save alone would give, and the name looks up the later path.
pub proof fn lemma_save_overwrites(
    t: Map<Seq<char>, Seq<char>>,
    name: Seq<char>,
    first: Seq<char>,
    second: Seq<char>,
)
    ensures
        t.insert(name, first).insert(name, second) == t.insert(name, second),
        t.insert(name, first).insert(name, second)[name] == second,
{
    assert(t.insert(name, first).insert(name, second) =~= t.insert(name, second));
}

} // verus!
