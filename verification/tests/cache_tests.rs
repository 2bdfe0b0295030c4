use git_ai::authorship_log_cache::AuthorshipLogCache;
use git_ai::authorship_log_v3::AuthorshipLogV3;

#[test]
fn fetches_once_and_caches() {
    let mut cache = AuthorshipLogCache::new();
    assert!(cache.is_empty());
    assert!(!cache.is_cached("abc"));
    let mut calls = 0;
    {
        let r: Result<&AuthorshipLogV3, String> = cache.get_or_fetch("abc", |sha: &str| {
            calls += 1;
            let mut log = AuthorshipLogV3::new();
            log.metadata.base_commit_sha = sha.to_string();
            Ok(log)
        });
        assert_eq!(r.unwrap().metadata.base_commit_sha, "abc");
    }
    assert_eq!(calls, 1);
    let r: Result<&AuthorshipLogV3, String> =
        cache.get_or_fetch("abc", |_sha: &str| Err("must not be called".to_string()));
    assert_eq!(r.unwrap().metadata.base_commit_sha, "abc");
    assert!(cache.is_cached("abc"));
    assert_eq!(cache.len(), 1);
    assert_eq!(cache.get_cached("abc").unwrap().metadata.base_commit_sha, "abc");
    assert!(cache.get_cached("def").is_none());
}

#[test]
fn failed_fetch_is_not_cached() {
    let mut cache = AuthorshipLogCache::new();
    let r: Result<&AuthorshipLogV3, String> =
        cache.get_or_fetch("abc", |_sha: &str| Err("no notes".to_string()));
    assert_eq!(r.err(), Some("no notes".to_string()));
    assert!(!cache.is_cached("abc"));
    assert!(cache.is_empty());
}
