use mastodon_list_bot::api_cache::ApiCache;
use mastodon_list_bot::api_client::{auth_header_value, build_request_url, is_rate_limited};
use mastodon_list_bot::api_helpers::get_next_link;
use mastodon_list_bot::api_models::{Account, List, Relationship};
use mastodon_list_bot::id_set::{chunk_ids, IdSet};
use mastodon_list_bot::list_manager::{ListManager, SyncWalk};
use mastodon_list_bot::runner::parse_lists;

fn follow(id: &str, last_status_day: Option<i64>) -> Account {
    Account {
        id: id.to_string(),
        last_status_day,
    }
}

fn mutual(id: &str) -> Relationship {
    Relationship {
        id: id.to_string(),
        following: true,
        followed_by: true,
    }
}

fn manager(title: &str) -> ListManager {
    ListManager::parse(List {
        id: "1".to_string(),
        title: title.to_string(),
    })
    .unwrap()
}

fn ids(v: &[&str]) -> Vec<String> {
    v.iter().map(|s| s.to_string()).collect()
}

fn cache_with_mutuals(ids: &[&str]) -> ApiCache {
    let mut cache = ApiCache::new();
    cache.store_follows(ids.iter().map(|id| follow(id, None)).collect());
    cache.store_relationships(&ids.iter().map(|id| mutual(id)).collect::<Vec<_>>());
    cache
}

/// Equal actual and desired sets: zero mutation requests.
#[test]
fn sync_idempotent_when_membership_matches() {
    let cache = cache_with_mutuals(&["a", "b", "c"]);
    let m = manager("#mutuals");
    let plan = m.sync_list(&cache, 1000, &vec![ids(&["b", "a"]), ids(&["c"])]);
    assert_eq!(plan.additions.len(), 0);
    assert_eq!(plan.deletions.len(), 0);
}

/// Additions are desired-minus-actual; deletions are actual-minus-desired.
#[test]
fn sync_computes_set_differences() {
    let cache = cache_with_mutuals(&["a", "b", "c"]);
    let m = manager("#mutuals");
    let plan = m.sync_list(&cache, 1000, &vec![ids(&["b", "d"])]);
    assert_eq!(plan.additions, vec![ids(&["a", "c"])]);
    assert_eq!(plan.deletions, vec![ids(&["d"])]);
}

#[test]
fn sync_on_empty_sets() {
    let cache = cache_with_mutuals(&[]);
    let m = manager("#mutuals");
    let plan = m.sync_list(&cache, 1000, &Vec::<Vec<String>>::new());
    assert_eq!(plan.additions.len(), 0);
    assert_eq!(plan.deletions.len(), 0);

    // empty desired set, non-empty membership: everything is deleted
    let plan = m.sync_list(&cache, 1000, &vec![ids(&["x", "y"])]);
    assert_eq!(plan.additions.len(), 0);
    assert_eq!(plan.deletions, vec![ids(&["x", "y"])]);
}

#[test]
fn last_status_selects_stale_and_silent_accounts() {
    let mut cache = ApiCache::new();
    cache.store_follows(vec![
        follow("fresh", Some(998)),
        follow("stale", Some(900)),
        follow("silent", None),
        follow("edge", Some(997)),
    ]);
    // today = 1000, 2 days: selected iff last status day < 998 or none
    let m = manager("#last_status_at>2d");
    let desired = m.get_new_member_ids(&cache, 1000);
    let got = desired.into_vec();
    assert_eq!(got, ids(&["stale", "silent", "edge"]));
}

#[test]
fn expression_intersects_terms() {
    let mut cache = ApiCache::new();
    cache.store_follows(vec![
        follow("stale_mutual", Some(1)),
        follow("stale_only", Some(1)),
        follow("mutual_only", Some(999)),
    ]);
    cache.store_relationships(&vec![
        mutual("stale_mutual"),
        mutual("mutual_only"),
        Relationship {
            id: "stale_only".to_string(),
            following: true,
            followed_by: false,
        },
    ]);
    let m = manager("#last_status_at>2d&mutuals");
    let got = m.get_new_member_ids(&cache, 1000).into_vec();
    assert_eq!(got, ids(&["stale_mutual"]));
}

/// The current-date evaluation: an account that never posted is stale on
/// any day the clock reports.
#[test]
fn today_based_evaluation_selects_silent_account() {
    let mut cache = ApiCache::new();
    cache.store_follows(vec![follow("silent", None)]);
    let m = manager("#last_status_at>1w");
    let got = m.get_new_member_ids_today(&cache).into_vec();
    assert_eq!(got, ids(&["silent"]));
}

/// Chunking: ⌈n/c⌉ batches, concatenation reproduces the input.
#[test]
fn chunking_counts_and_contents() {
    let v = ids(&["1", "2", "3", "4", "5"]);
    let chunks = chunk_ids(&v, 2);
    assert_eq!(
        chunks,
        vec![ids(&["1", "2"]), ids(&["3", "4"]), ids(&["5"])]
    );

    assert_eq!(chunk_ids(&ids(&[]), 2).len(), 0);
    assert_eq!(chunk_ids(&ids(&["1", "2", "3", "4"]), 2).len(), 2);
    assert_eq!(chunk_ids(&ids(&["1"]), 250), vec![ids(&["1"])]);
}

#[test]
fn walk_crosses_off_and_queues_deletions() {
    let mut desired = IdSet::new();
    desired.insert("a".to_string());
    desired.insert("b".to_string());
    let mut walk = SyncWalk::begin(desired);
    walk.observe_member("b".to_string());
    walk.observe_member("x".to_string());
    let plan = walk.finish();
    assert_eq!(plan.additions, vec![ids(&["a"])]);
    assert_eq!(plan.deletions, vec![ids(&["x"])]);
}

#[test]
fn relationship_plan_splits_known_and_missing() {
    let mut cache = ApiCache::new();
    cache.store_relationships(&vec![mutual("k1")]);

    let mut query = IdSet::new();
    query.insert("k1".to_string());
    query.insert("u1".to_string());
    query.insert("u2".to_string());

    let plan = cache.get_relationships_plan(&query);
    assert_eq!(plan.known.len(), 1);
    assert_eq!(plan.known[0].id, "k1");
    assert_eq!(plan.missing_chunks, vec![ids(&["u1", "u2"])]);

    // merging the fetched batch makes the ids known
    cache.store_relationships(&vec![mutual("u1"), mutual("u2")]);
    let plan = cache.get_relationships_plan(&query);
    assert_eq!(plan.known.len(), 3);
    assert_eq!(plan.missing_chunks.len(), 0);

    let all = cache.get_relationships(&query);
    assert_eq!(all.len(), 3);
    assert_eq!(all[0].id, "k1");
    assert_eq!(all[1].id, "u1");
    assert_eq!(all[2].id, "u2");
}

#[test]
fn relationship_merge_replaces_by_id() {
    let mut cache = ApiCache::new();
    cache.store_relationships(&vec![mutual("a")]);
    cache.store_relationships(&vec![Relationship {
        id: "a".to_string(),
        following: true,
        followed_by: false,
    }]);
    let mut query = IdSet::new();
    query.insert("a".to_string());
    let plan = cache.get_relationships_plan(&query);
    assert_eq!(plan.known.len(), 1);
    assert!(!plan.known[0].followed_by);
}

#[test]
fn parse_lists_keeps_only_parseable_titles() {
    let lists = vec![
        List {
            id: "1".to_string(),
            title: "groceries".to_string(),
        },
        List {
            id: "2".to_string(),
            title: "bots #mutuals".to_string(),
        },
        List {
            id: "3".to_string(),
            title: "#last_status_at>1w".to_string(),
        },
    ];
    let managers = parse_lists(&lists);
    assert_eq!(managers.len(), 2);
    assert_eq!(managers[0].list.id, "2");
    assert_eq!(managers[1].list.id, "3");
}

#[test]
fn request_urls() {
    assert_eq!(
        build_request_url(false, "example.com", "/api/v1/lists"),
        "https://example.com/api/v1/lists".to_string()
    );
    assert_eq!(
        build_request_url(true, "example.com", "/x"),
        "http://example.com/x".to_string()
    );
    assert_eq!(
        build_request_url(false, "example.com", "https://other/page2"),
        "https://other/page2".to_string()
    );
    assert_eq!(auth_header_value("tok"), "Bearer tok".to_string());
    assert!(is_rate_limited(429));
    assert!(!is_rate_limited(500));
}

#[test]
fn next_link_extraction() {
    assert_eq!(
        get_next_link("<https://h/api/v1/lists?page=2>; rel=\"next\""),
        Some("https://h/api/v1/lists?page=2".to_string())
    );
    assert_eq!(
        get_next_link("<https://h/p2>; rel=\"next\", <https://h/p0>; rel=\"prev\""),
        Some("https://h/p2".to_string())
    );
    assert_eq!(get_next_link("<https://h/p0>; rel=\"prev\""), None);
    assert_eq!(get_next_link(""), None);
    assert_eq!(get_next_link("no links here"), None);
}

/// Three linked pages: three requests, and the collected items are the
/// union of all pages.
#[test]
fn pagination_follows_three_pages() {
    // (items, Link header) per page, keyed by URL
    let pages = vec![
        ("/start", ids(&["a", "b"]), "<p2>; rel=\"next\""),
        ("p2", ids(&["c"]), "<p3>; rel=\"next\""),
        ("p3", ids(&["d", "e"]), "<p0>; rel=\"prev\""),
    ];
    let mut url = Some("/start".to_string());
    let mut requests = 0;
    let mut collected: Vec<String> = Vec::new();
    while let Some(u) = url {
        let (_, items, header) = pages.iter().find(|(k, _, _)| *k == u).unwrap();
        requests += 1;
        collected.extend(items.iter().cloned());
        url = get_next_link(header);
    }
    assert_eq!(requests, 3);
    assert_eq!(collected, ids(&["a", "b", "c", "d", "e"]));
}

#[test]
fn id_set_behaves_as_a_set() {
    let mut s = IdSet::new();
    assert!(s.is_empty());
    s.insert("a".to_string());
    s.insert("b".to_string());
    s.insert("a".to_string());
    assert_eq!(s.len(), 2);
    assert!(s.contains(&"a".to_string()));
    assert!(!s.contains(&"c".to_string()));
    assert!(s.remove(&"a".to_string()));
    assert!(!s.remove(&"a".to_string()));
    assert_eq!(s.into_vec(), ids(&["b"]));
}

#[test]
fn chunking_at_update_size() {
    let mut desired = IdSet::new();
    for i in 0..300 {
        desired.insert(format!("id{}", i));
    }
    let walk = SyncWalk::begin(desired);
    let plan = walk.finish();
    assert_eq!(plan.additions.len(), 2);
    assert_eq!(plan.additions[0].len(), 250);
    assert_eq!(plan.additions[1].len(), 50);
    assert_eq!(plan.deletions.len(), 0);
}

#[test]
fn next_link_takes_leftmost_then_shortest() {
    // the URL text may itself hold `<`; the match starts at the leftmost
    // `<` and closes at the nearest `>; rel="next"`
    assert_eq!(get_next_link("<a<b>; rel=\"next\""), Some("a<b".to_string()));
    // an empty URL is no match
    assert_eq!(get_next_link("<>; rel=\"next\""), None);
}
