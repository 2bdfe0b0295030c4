//! A cache of authorship logs by commit, filled lazily so that a commit's
//! log is fetched at most once per operation.
use vstd::prelude::*;
use crate::authorship_log_v3::AuthorshipLogV3;
use crate::str_map::{StrMap, lookup};

verus! {

/// Authorship logs by commit SHA.
pub struct AuthorshipLogCache {
    cache: StrMap<AuthorshipLogV3>,
}

impl View for AuthorshipLogCache {
    /// The cached logs, by commit SHA in increasing order.
    type V = Seq<(Seq<char>, AuthorshipLogV3)>;

    closed spec fn view(&self) -> Seq<(Seq<char>, AuthorshipLogV3)> {
        self.cache@
    }
}

impl AuthorshipLogCache {
    /// The cache is well formed.
    pub closed spec fn wf(&self) -> bool {
        self.cache.wf()
    }

    /// The log cached for `sha`, if any.
    pub open spec fn cached(&self, sha: Seq<char>) -> Option<AuthorshipLogV3> {
        lookup(self@, sha)
    }

    /// An empty cache.
    pub fn new() -> (r: Self)
        ensures
            r.wf(),
            r@.len() == 0,
            forall|k: Seq<char>| r.cached(k) is None,
    {
        let r = AuthorshipLogCache { cache: StrMap::new() };
        assert(forall|k: Seq<char>| lookup(r@, k) is None);
        r
    }

    /// The log of commit `commit_sha`: the cached one, or else the one that
    /// `fetch` returns for it, which is then cached; a failed fetch is
    /// returned and nothing is cached.
    pub fn get_or_fetch<F, E>(&mut self, commit_sha: &str, fetch: F) -> (r: Result<
        &AuthorshipLogV3,
        E,
    >) where F: FnOnce(&str) -> Result<AuthorshipLogV3, E>
        requires
            old(self).wf(),
            old(self).cached(commit_sha@) is None ==> call_requires(fetch, (commit_sha,)),
        ensures
            final(self).wf(),
            old(self).cached(commit_sha@) is Some ==> final(self)@ == old(self)@ && r == Ok::<
                &AuthorshipLogV3,
                E,
            >(&old(self).cached(commit_sha@).unwrap()),
            old(self).cached(commit_sha@) is None ==> match r {
                Ok(log) => call_ensures(fetch, (commit_sha,), Ok::<AuthorshipLogV3, E>(*log))
                    && final(self)@.len() == old(self)@.len() + 1
                    && forall|k: Seq<char>|
                    #[trigger] final(self).cached(k) == if k == commit_sha@ {
                        Some(*log)
                    } else {
                        old(self).cached(k)
                    },
                Err(e) => call_ensures(fetch, (commit_sha,), Err::<AuthorshipLogV3, E>(e))
                    && final(self)@ == old(self)@,
            },
    {
        if !self.cache.contains_key(commit_sha) {
            match fetch(commit_sha) {
                Ok(log) => {
                    self.cache.insert(commit_sha.to_owned(), log);
                },
                Err(e) => {
                    return Err(e);
                },
            }
        }
        let found = self.cache.get(commit_sha);
        Ok(found.unwrap())
    }

    /// The cached log of commit `commit_sha`, without fetching.
    pub fn get_cached(&self, commit_sha: &str) -> (r: Option<&AuthorshipLogV3>)
        requires
            self.wf(),
        ensures
            match r {
                Some(log) => self.cached(commit_sha@) == Some(*log),
                None => self.cached(commit_sha@) is None,
            },
    {
        self.cache.get(commit_sha)
    }

    /// Whether the log of commit `commit_sha` is cached.
    pub fn is_cached(&self, commit_sha: &str) -> (r: bool)
        requires
            self.wf(),
        ensures
            r == (self.cached(commit_sha@) is Some),
    {
        self.cache.contains_key(commit_sha)
    }

    /// The number of cached logs.
    pub fn len(&self) -> (r: usize)
        ensures
            r == self@.len(),
    {
        self.cache.len()
    }

    /// Whether no log is cached.
    pub fn is_empty(&self) -> (r: bool)
        ensures
            r == (self@.len() == 0),
    {
        self.cache.is_empty()
    }
}

} // verus!
