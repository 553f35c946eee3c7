use vstd::prelude::*;
use crate::codec::enc_records;
use crate::entry::{entries_view, Entry};
use crate::store::{matching, Cache, CacheError, StoreWrite};

verus! {

/// A failed remote lookup: network, service or not-found.
#[derive(Debug)]
pub struct FetchError {
    pub message: String,
}

/// Why a lookup failed.
#[derive(Debug)]
pub enum LookupError {
    Fetch(FetchError),
    Cache(CacheError),
}

/// What to do after consulting the store.
#[derive(Debug)]
pub enum Step {
    /// The store holds records for the word: these are the answer, and nothing is
    /// fetched or written.
    Hit(Vec<Entry>),
    /// The store holds none: fetch the word remotely and hand the outcome to
    /// `complete_lookup`.
    Fetch,
}

/// First step of a lookup: the store's records for `word`, or the need to fetch.
pub fn plan_lookup(cache: &Cache, word: &str) -> (r: Step)
    ensures
        match r {
            Step::Hit(v) => matching(cache@, word@).len() > 0 && entries_view(v@) == matching(
                cache@,
                word@,
            ),
            Step::Fetch => matching(cache@, word@).len() == 0,
        },
{
    let found = cache.lookup_word(word);
    if found.len() > 0 {
        Step::Hit(found)
    } else {
        Step::Fetch
    }
}

/// Last step of a lookup after a miss: a failed fetch is passed on and the store is not
/// touched; fetched records, even none, are appended to the store in the order
/// received and returned, with the write that the store file needs.
pub fn complete_lookup(cache: &mut Cache, fetched: Result<Vec<Entry>, FetchError>) -> (r: Result<
    (Vec<Entry>, StoreWrite),
    LookupError,
>)
    ensures
        match fetched {
            Err(f) => r == Err::<(Vec<Entry>, StoreWrite), LookupError>(LookupError::Fetch(f))
                && final(cache)@ == old(cache)@ && final(cache).end_view() == old(
                cache,
            ).end_view(),
            Ok(v) => match r {
                Ok((found, w)) => found == v && final(cache)@ == old(cache)@ + entries_view(v@)
                    && w.offset == old(cache).end_view() && w.bytes@ == enc_records(
                    entries_view(v@),
                ) && final(cache).end_view() == old(cache).end_view() + w.bytes@.len(),
                Err(e) => e is Cache && old(cache).end_view() + enc_records(
                    entries_view(v@),
                ).len() > usize::MAX && final(cache)@ == old(cache)@
                    && final(cache).end_view() == old(cache).end_view(),
            },
        },
{
    match fetched {
        Err(f) => Err(LookupError::Fetch(f)),
        Ok(v) => match cache.append(&v) {
            Ok(w) => Ok((v, w)),
            Err(e) => Err(LookupError::Cache(e)),
        },
    }
}

} // verus!
