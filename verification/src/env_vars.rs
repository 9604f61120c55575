//! Environment-variable settings of a file descriptor, stored in a
//! hash map and modelled as a mapping from names to values.

use vstd::prelude::*;

verus! {

/// A mapping from environment-variable names to values.
#[verifier::external_body]
pub struct EnvVars {
    inner: rustc_hash::FxHashMap<String, String>,
}

/// The entries an `EnvVars` holds.
pub uninterp spec fn env_entries(m: EnvVars) -> Map<Seq<char>, Seq<char>>;

/// The empty entry mapping.
pub open spec fn no_entries() -> Map<Seq<char>, Seq<char>> {
    Map::empty()
}

impl EnvVars {
    /// Relies on `HashMap::default`: a freshly built map has no
    /// entries.
    #[verifier::external_body]
    pub fn new() -> (res: EnvVars)
        ensures
            env_entries(res) == no_entries(),
    {
        EnvVars { inner: rustc_hash::FxHashMap::default() }
    }

    /// Relies on `HashMap::insert`: the entry for `k` is set to `v` and
    /// every other entry is unchanged.
    #[verifier::external_body]
    pub fn insert(&mut self, k: String, v: String)
        ensures
            env_entries(*final(self)) == env_entries(*old(self)).insert(k@, v@),
    {
        self.inner.insert(k, v);
    }

    /// Relies on `HashMap::len`: the number of entries held.
    #[verifier::external_body]
    pub fn len(&self) -> (n: usize)
        ensures
            n == env_entries(*self).dom().len(),
    {
        self.inner.len()
    }

    /// Relies on `HashMap::get`: the value stored for `k`, if any.
    #[verifier::external_body]
    pub fn get(&self, k: &str) -> (r: Option<&String>)
        ensures
            match r {
                Some(v) => env_entries(*self).dom().contains(k@) && v@ == env_entries(*self)[k@],
                None => !env_entries(*self).dom().contains(k@),
            },
    {
        self.inner.get(k)
    }
}

} // verus!
