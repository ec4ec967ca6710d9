//! Split-chunks configuration: the raw form the host hands over, and the
//! resolved option types the engine consumes. Sizes are byte counts.

use vstd::prelude::*;

verus! {

/// Which kind of chunks a rule selects.
#[derive(Clone, Copy, PartialEq, Eq, Structural, Debug)]
pub enum ChunkType {
    Initial,
    Async,
    All,
}

impl ChunkType {
    /// Whether a chunk with the given loading kind is selected.
    pub open spec fn spec_selects(self, is_initial: bool) -> bool {
        match self {
            ChunkType::Initial => is_initial,
            ChunkType::Async => !is_initial,
            ChunkType::All => true,
        }
    }

    #[verifier::when_used_as_spec(spec_selects)]
    pub fn selects(self, is_initial: bool) -> (r: bool)
        ensures
            r == self.spec_selects(is_initial),
    {
        match self {
            ChunkType::Initial => is_initial,
            ChunkType::Async => !is_initial,
            ChunkType::All => true,
        }
    }
}

/// The raw cache-group rule as the host configuration carries it, chunk
/// selector still a string.
#[derive(Debug)]
pub struct RawCacheGroupOptions {
    pub priority: Option<i32>,
    pub reuse_existing_chunk: Option<bool>,
    /// Pattern matched against a module's condition name.
    pub test: Option<String>,
    /// What kind of chunks should be selected.
    pub chunks: Option<String>,
    pub min_chunks: Option<u32>,
    pub name: Option<String>,
}

/// A resolved cache-group rule.
#[derive(Debug)]
pub struct CacheGroupOptions {
    pub name: Option<String>,
    pub priority: Option<i32>,
    pub reuse_existing_chunk: Option<bool>,
    /// Pattern matched against a module's condition name.
    pub test: Option<String>,
    pub chunks: Option<ChunkType>,
    pub min_chunks: Option<u32>,
}

/// The resolved split-chunks options: global thresholds plus the ordered
/// cache groups. Sizes are byte counts.
#[derive(Debug)]
pub struct SplitChunksOptions {
    pub cache_groups: Vec<(String, CacheGroupOptions)>,
    pub chunks: Option<ChunkType>,
    pub max_async_requests: Option<u32>,
    pub max_initial_requests: Option<u32>,
    pub min_chunks: Option<u32>,
    pub min_size: Option<u64>,
    pub enforce_size_threshold: Option<u64>,
    pub min_remaining_size: Option<u64>,
}

/// Whether `s` spells one of the three chunk selectors.
pub open spec fn valid_chunk_type(s: Seq<char>) -> bool {
    s == "initial"@ || s == "async"@ || s == "all"@
}

/// The selector a valid chunk-type string names.
pub open spec fn spec_chunk_type(s: Seq<char>) -> ChunkType {
    if s == "initial"@ {
        ChunkType::Initial
    } else if s == "async"@ {
        ChunkType::Async
    } else {
        ChunkType::All
    }
}

/// Parse a chunk-type selector string; anything but the three known
/// selectors is rejected.
pub fn parse_chunk_type(s: &String) -> (r: Option<ChunkType>)
    ensures
        r matches Some(c) ==> valid_chunk_type(s@) && c == spec_chunk_type(s@),
        r is None ==> !valid_chunk_type(s@),
{
    if *s == String::from_str("initial") {
        Some(ChunkType::Initial)
    } else if *s == String::from_str("async") {
        Some(ChunkType::Async)
    } else if *s == String::from_str("all") {
        Some(ChunkType::All)
    } else {
        None
    }
}

impl RawCacheGroupOptions {
    /// Resolve the raw rule. A chunk selector that is not one of `initial`,
    /// `async` or `all` is a configuration error the host must rule out
    /// before handing the options over.
    pub fn to_compiler_option(self) -> (r: CacheGroupOptions)
        requires
            self.chunks matches Some(c) ==> valid_chunk_type(c@),
        ensures
            r.name == self.name,
            r.priority == self.priority,
            r.reuse_existing_chunk == self.reuse_existing_chunk,
            r.test == self.test,
            r.min_chunks == self.min_chunks,
            self.chunks matches Some(c) ==> r.chunks == Some(spec_chunk_type(c@)),
            self.chunks is None ==> r.chunks is None,
    {
        let chunks = match &self.chunks {
            Some(c) => {
                match parse_chunk_type(c) {
                    Some(t) => Some(t),
                    None => {
                        proof {
                            assert(false);
                        }
                        None
                    }
                }
            }
            None => None,
        };
        CacheGroupOptions {
            name: self.name,
            priority: self.priority,
            reuse_existing_chunk: self.reuse_existing_chunk,
            test: self.test,
            chunks,
            min_chunks: self.min_chunks,
        }
    }
}

} // verus!
