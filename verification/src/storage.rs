//! How the database is written and tuned.
use vstd::prelude::*;

use crate::text::same;

verus! {

/// How far a write has come before the caller hears of it.
///
/// `Async` flushes to the kernel and lets a background thread sync within
/// about a second; `Sync` waits until the data is on stable media.
#[derive(Clone, Copy, Debug, PartialEq, Eq, Structural)]
pub enum Durability {
    Async,
    Sync,
}

impl Durability {
    /// Whether a write waits for stable media.
    pub fn is_sync(self) -> (r: bool)
        ensures
            r == (self is Sync),
    {
        match self {
            Durability::Sync => true,
            Durability::Async => false,
        }
    }

    /// The mode that a name stands for.
    pub open spec fn named(s: Seq<char>) -> Option<Durability> {
        if s == "async"@ || s == "Async"@ {
            Some(Durability::Async)
        } else if s == "sync"@ || s == "Sync"@ {
            Some(Durability::Sync)
        } else {
            None
        }
    }

    /// Reads the name of a mode.
    pub fn parse(s: &str) -> (r: std::result::Result<Durability, String>)
        ensures
            match r {
                Ok(d) => Durability::named(s@) == Some(d),
                Err(why) => Durability::named(s@) is None && why@ == "unknown durability '"@ + s@
                    + "'; expected 'async' or 'sync'"@,
            },
    {
        if same(s, "async") || same(s, "Async") {
            Ok(Durability::Async)
        } else if same(s, "sync") || same(s, "Sync") {
            Ok(Durability::Sync)
        } else {
            Err("unknown durability '".to_owned().concat(s).concat("'; expected 'async' or 'sync'"))
        }
    }
}

/// The settings that a database is opened with. The page size only takes
/// effect on a database that is just being created.
#[derive(Clone, Copy, Debug, PartialEq, Eq, Structural)]
pub struct SqliteTuning {
    /// The mapped size in bytes.
    pub mmap_size: i64,
    /// The page size in bytes, a power of two.
    pub page_size: i64,
    /// The size of the page cache in KiB.
    pub cache_size_kb: i64,
    /// How long to wait for a lock, in milliseconds.
    pub busy_timeout_ms: u64,
    /// The size in bytes that the journal is cut back to.
    pub journal_size_limit: i64,
}

impl Default for SqliteTuning {
    fn default() -> (r: Self)
        ensures
            r == (SqliteTuning {
                mmap_size: 268_435_456,
                page_size: 4096,
                cache_size_kb: 50_000,
                busy_timeout_ms: 5000,
                journal_size_limit: 134_217_728,
            }),
    {
        SqliteTuning {
            mmap_size: 268_435_456,
            page_size: 4096,
            cache_size_kb: 50_000,
            busy_timeout_ms: 5000,
            journal_size_limit: 134_217_728,
        }
    }
}

/// Each mode is known by its two spellings, and no name stands for both.
pub proof fn law_each_mode_has_its_names(s: Seq<char>)
    ensures
        Durability::named(s) == Some(Durability::Async) <==> s == "async"@ || s == "Async"@,
        Durability::named(s) == Some(Durability::Sync) <==> s == "sync"@ || s == "Sync"@,
{
    reveal_strlit("async");
    reveal_strlit("Async");
    reveal_strlit("sync");
    reveal_strlit("Sync");
    assert("async"@.len() == 5 && "Async"@.len() == 5 && "sync"@.len() == 4 && "Sync"@.len() == 4);
}

} // verus!
