//! The cache file's record of how many catalogue pages the site had at the
//! last refresh, read with serde_json.

use vstd::prelude::*;

verus! {

#[verifier::external_type_specification]
#[verifier::external_body]
pub struct ExJsonError(serde_json::Error);

/// Why the cache cannot be read.
#[derive(Debug, Clone, Copy, PartialEq, Eq, Structural)]
pub enum CacheError {
    /// The cache is not a JSON document.
    NotJson,
}

/// What `serde_json` reads out of a cache text: `None` when the text is not
/// a JSON document, else the value under the key "num_of_pages" when it is
/// an unsigned integer that fits in a `u64`, and `None` inside otherwise.
pub uninterp spec fn stored_page_count(cache: Seq<char>) -> Option<Option<u64>>;

/// Reads the page count recorded in a cache text.
///
/// Trusted: the body calls `serde_json::from_str` into a `serde_json::Value`
/// and reads `value["num_of_pages"].as_u64()` (indexing a non-object or a
/// missing key gives `Null`, for which `as_u64` is `None`). The result depends
/// on the text alone; the contract names it and claims nothing else of it.
#[verifier::external_body]
fn read_page_count(cache: &str) -> (r: Result<Option<u64>, serde_json::Error>)
    ensures
        match r {
            Ok(v) => stored_page_count(cache@) == Some(v),
            Err(_) => stored_page_count(cache@) is None,
        },
{
    serde_json::from_str::<serde_json::Value>(cache).map(|v| v["num_of_pages"].as_u64())
}

/// The number of catalogue pages to expect, from what the cache records: the
/// recorded count, or 34 where the cache records none.
pub fn page_estimate(stored: Option<u64>) -> (r: u64)
    ensures
        r == match stored {
            Some(n) => n,
            None => 34,
        },
{
    match stored {
        Some(n) => n,
        None => 34,
    }
}

/// The text that the cache is read as: an empty file counts as `{}`.
pub open spec fn cache_document(cache: Seq<char>) -> Seq<char> {
    if cache.len() == 0 {
        "{}"@
    } else {
        cache
    }
}

/// The number of catalogue pages to expect, read from the cache file's
/// text (an empty file counts as `{}`); an error when the text is not JSON.
pub fn expected_pages(cache: &str) -> (r: Result<u64, CacheError>)
    ensures
        match stored_page_count(cache_document(cache@)) {
            None => r == Err::<u64, CacheError>(CacheError::NotJson),
            Some(v) => r == Ok::<u64, CacheError>(
                match v {
                    Some(n) => n,
                    None => 34,
                },
            ),
        },
{
    let read = if cache.is_empty() {
        read_page_count("{}")
    } else {
        read_page_count(cache)
    };
    match read {
        Ok(v) => Ok(page_estimate(v)),
        Err(_) => Err(CacheError::NotJson),
    }
}

} // verus!
