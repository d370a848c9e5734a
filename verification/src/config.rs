//! The run configuration the command line hands the library, and the
//! plain-text decisions of connection startup: which database a
//! connection string names, where its server's system database lives,
//! and whether a connection error means the database must first be
//! created.

use vstd::prelude::*;

verus! {

/// Options of an apply run.
pub struct MigrationArgs {
    /// Validate and trial-execute the batch, then roll back regardless.
    pub dry_run: bool,
    /// Skip drifted and missing entries instead of aborting.
    pub force: bool,
}

/// The request to create a new migration file.
pub struct NewMigrationArgs {
    /// Name for the new migration.
    pub name: String,
}

/// The commands the tool offers.
pub enum Commands {
    /// Apply pending migrations.
    Migrate(MigrationArgs),
    /// Show the stored history.
    Status,
    /// Create a new migration file.
    New(NewMigrationArgs),
    /// Drop and recreate the database.
    Reset,
}

/// The parsed command line.
pub struct Cli {
    /// Connection string; when absent the environment supplies one.
    pub db_url: Option<String>,
    /// The migrations directory.
    pub migrations_dir: String,
    /// Verbosity, as repetitions of the flag.
    pub verbose: u8,
    /// Subcommand to execute.
    pub command: Option<Commands>,
}

/// The connection string a run uses: the one given on the command line,
/// or else the one from the environment.
pub fn resolve_db_url(cli_url: Option<String>, env_url: Option<String>) -> (r: Option<String>)
    ensures
        cli_url is Some ==> r == cli_url,
        cli_url is None ==> r == env_url,
{
    match cli_url {
        Some(u) => Some(u),
        None => env_url,
    }
}


/// Index of the last `/` in the string, or minus one when it has none.
pub open spec fn last_slash(s: Seq<char>) -> int
    decreases s.len(),
{
    if s.len() == 0 {
        -1
    } else if s.last() == '/' {
        s.len() - 1
    } else {
        last_slash(s.drop_last())
    }
}

/// `last_slash` points at the last `/`, or below zero when none occurs.
pub proof fn lemma_last_slash_props(s: Seq<char>)
    ensures
        -1 <= last_slash(s) < s.len(),
        last_slash(s) >= 0 ==> s[last_slash(s)] == '/',
        forall|j: int| last_slash(s) < j < s.len() ==> s[j] != '/',
    decreases s.len(),
{
    if s.len() > 0 && s.last() != '/' {
        let t = s.drop_last();
        lemma_last_slash_props(t);
        assert forall|j: int| last_slash(s) < j < s.len() implies s[j] != '/' by {
            if j < s.len() - 1 {
                assert(t[j] == s[j]);
            }
        }
    }
}

/// One past the last `/` of the string, or zero when it has none.
fn last_slash_boundary(url: &str) -> (i: usize)
    ensures
        i as int == last_slash(url@) + 1,
        i <= url@.len(),
{
    let n = url.unicode_len();
    let mut i: usize = n;
    while i > 0 && url.get_char(i - 1) != '/'
        invariant
            n == url@.len(),
            0 <= i <= n,
            forall|j: int| i <= j < n ==> url@[j] != '/',
        decreases i,
    {
        i = i - 1;
    }
    proof {
        lemma_last_slash_props(url@);
        if i > 0 {
            assert(url@[i - 1] == '/');
        }
    }
    i
}

/// The database a connection string names: everything after its last
/// `/`, or the whole string when it has none.
pub fn db_name_of(url: &str) -> (r: String)
    ensures
        r@ == url@.subrange(last_slash(url@) + 1, url@.len() as int),
{
    let i = last_slash_boundary(url);
    url.substring_char(i, url.unicode_len()).to_owned()
}

/// The connection string of the server's system database: the part
/// before the last `/`, rejoined with `/postgres`; nothing when the
/// string has no `/` to split at.
pub fn system_db_url_of(url: &str) -> (r: Option<String>)
    ensures
        last_slash(url@) >= 0 ==> (r matches Some(t) && t@ == url@.subrange(0, last_slash(url@))
            + "/postgres"@),
        last_slash(url@) < 0 ==> r is None,
{
    let i = last_slash_boundary(url);
    if i == 0 {
        return None;
    }
    Some(url.substring_char(0, i - 1).to_owned().concat("/postgres"))
}

/// Whether the needle stands in the haystack at the position.
pub open spec fn has_sub_at(hay: Seq<char>, needle: Seq<char>, i: int) -> bool {
    &&& 0 <= i
    &&& i + needle.len() <= hay.len()
    &&& hay.subrange(i, i + needle.len()) == needle
}

/// Whether the needle stands anywhere in the haystack.
pub open spec fn contains_sub(hay: Seq<char>, needle: Seq<char>) -> bool {
    exists|i: int| #[trigger] has_sub_at(hay, needle, i)
}

/// Whether one string stands inside another.
fn contains_str(hay: &str, needle: &str) -> (r: bool)
    ensures
        r == contains_sub(hay@, needle@),
{
    let n = hay.unicode_len();
    let m = needle.unicode_len();
    if m == 0 {
        proof {
            assert(hay@.subrange(0, 0) =~= needle@);
            assert(has_sub_at(hay@, needle@, 0));
        }
        return true;
    }
    if m > n {
        proof {
            assert forall|p: int| !(#[trigger] has_sub_at(hay@, needle@, p)) by {}
        }
        return false;
    }
    let mut i: usize = 0;
    while i <= n - m
        invariant
            n == hay@.len(),
            m == needle@.len(),
            1 <= m <= n,
            0 <= i <= n - m + 1,
            forall|p: int| 0 <= p < i ==> !(#[trigger] has_sub_at(hay@, needle@, p)),
        decreases n - m + 1 - i,
    {
        let mut j: usize = 0;
        while j < m && hay.get_char(i + j) == needle.get_char(j)
            invariant
                n == hay@.len(),
                m == needle@.len(),
                i + m <= n,
                0 <= j <= m,
                forall|q: int| 0 <= q < j ==> hay@[i + q] == needle@[q],
            decreases m - j,
        {
            j = j + 1;
        }
        if j == m {
            proof {
                assert(hay@.subrange(i as int, i + m) =~= needle@);
                assert(has_sub_at(hay@, needle@, i as int));
            }
            return true;
        }
        proof {
            assert(!has_sub_at(hay@, needle@, i as int)) by {
                if has_sub_at(hay@, needle@, i as int) {
                    assert(hay@.subrange(i as int, i + m)[j as int] == needle@[j as int]);
                }
            }
        }
        i = i + 1;
    }
    proof {
        assert forall|p: int| !(#[trigger] has_sub_at(hay@, needle@, p)) by {
            if 0 <= p <= n - m {
            }
        }
    }
    false
}

/// Whether a connection error says the database does not exist — the one
/// failure the front end answers by creating the database and retrying.
pub fn should_create_database(error_text: &str) -> (r: bool)
    ensures
        r == contains_sub(error_text@, "does not exist"@),
{
    contains_str(error_text, "does not exist")
}

} // verus!
