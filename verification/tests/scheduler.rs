use mastodon_list_bot::api_models::CredentialAccount;
use mastodon_list_bot::auth::LoggedIn;
use mastodon_list_bot::error::ResponseError;
use mastodon_list_bot::store::{
    select_sweep_accounts, Account, AccountPk, RegisterAccount, SyncAction, SyncImmediateResult,
    SyncOutcome, SyncRegistry,
};

fn account(host: &str, username: &str, last_success_at: Option<i64>, failure_count: i64) -> Account {
    Account {
        host: host.to_string(),
        username: username.to_string(),
        token: "tok".to_string(),
        created_at: 0,
        last_success_at,
        failure_count,
        last_error: None,
    }
}

fn pending(r: &SyncImmediateResult) -> bool {
    matches!(r, SyncImmediateResult::Pending)
}

/// Dedup: repeated requests while one job is in flight spawn exactly one
/// job; every later request reports `Pending`.
#[test]
fn dedup_spawns_one_job() {
    let mut registry = SyncRegistry::new();
    let acc = account("h", "u", None, 0);

    let (r1, a1) = registry.sync_immediate(&acc, 10_000);
    assert!(pending(&r1));
    assert_eq!(a1, SyncAction::SpawnJob);

    let mut spawned = 1;
    for _ in 0..4 {
        let (r, a) = registry.sync_immediate(&acc, 10_001);
        assert!(pending(&r));
        if a == SyncAction::SpawnJob {
            spawned += 1;
        }
    }
    assert_eq!(spawned, 1);
}

/// A finished job's result is delivered exactly once, and the entry is
/// gone afterwards.
#[test]
fn completed_result_is_consumed_once() {
    let mut registry = SyncRegistry::new();
    let acc = account("h", "u", None, 0);

    let (_, action) = registry.sync_immediate(&acc, 10_000);
    assert_eq!(action, SyncAction::SpawnJob);

    registry.finish_job(&acc.primary_key(), SyncOutcome::Failure("boom".to_string()));
    let (r, a) = registry.sync_immediate(&acc, 10_002);
    assert!(matches!(r, SyncImmediateResult::Error { value } if value == "boom"));
    assert_eq!(a, SyncAction::Nothing);
    assert!(!registry.contains_job(&acc.primary_key()));

    // the next request starts over and spawns a fresh job
    let (r, a) = registry.sync_immediate(&acc, 10_003);
    assert!(pending(&r));
    assert_eq!(a, SyncAction::SpawnJob);
}

#[test]
fn successful_job_reports_done() {
    let mut registry = SyncRegistry::new();
    let acc = account("h", "u", None, 0);
    registry.sync_immediate(&acc, 10_000);
    registry.finish_job(&acc.primary_key(), SyncOutcome::Success);
    let (r, _) = registry.sync_immediate(&acc, 10_001);
    assert!(matches!(r, SyncImmediateResult::Done));
}

/// Cooldown: a request within thirty minutes of the last success, with no
/// job in flight, returns `TooMany` and spawns nothing.
#[test]
fn cooldown_returns_too_many() {
    let mut registry = SyncRegistry::new();
    let acc = account("h", "u", Some(10_000), 0);

    let (r, a) = registry.sync_immediate(&acc, 10_000 + 1799);
    assert!(matches!(r, SyncImmediateResult::TooMany));
    assert_eq!(a, SyncAction::Nothing);
    assert!(!registry.contains_job(&acc.primary_key()));

    // past the window a job starts
    let (r, a) = registry.sync_immediate(&acc, 10_000 + 1800);
    assert!(pending(&r));
    assert_eq!(a, SyncAction::SpawnJob);
}

/// The cooldown does not block an account whose job already runs from
/// polling it.
#[test]
fn cooldown_does_not_hide_running_job() {
    let mut registry = SyncRegistry::new();
    let acc = account("h", "u", None, 0);
    registry.sync_immediate(&acc, 10_000);

    let recently_succeeded = account("h", "u", Some(10_050), 0);
    let (r, a) = registry.sync_immediate(&recently_succeeded, 10_100);
    assert!(pending(&r));
    assert_eq!(a, SyncAction::Nothing);
}

#[test]
fn registry_tracks_accounts_separately() {
    let mut registry = SyncRegistry::new();
    let a1 = account("h", "u1", None, 0);
    let a2 = account("h", "u2", None, 0);
    let (_, act1) = registry.sync_immediate(&a1, 1);
    let (_, act2) = registry.sync_immediate(&a2, 2);
    assert_eq!(act1, SyncAction::SpawnJob);
    assert_eq!(act2, SyncAction::SpawnJob);
    assert!(registry.contains_job(&a1.primary_key()));
    assert!(registry.contains_job(&a2.primary_key()));
    registry.finish_job(&a1.primary_key(), SyncOutcome::Success);
    let (r1, _) = registry.sync_immediate(&a1, 3);
    let (r2, _) = registry.sync_immediate(&a2, 3);
    assert!(matches!(r1, SyncImmediateResult::Done));
    assert!(pending(&r2));
}

#[test]
fn record_run_result_on_success_and_failure() {
    let acc = account("h", "u", Some(5), 3);

    let ok = acc.record_run_result(&SyncOutcome::Success, 42);
    assert_eq!(ok.last_success_at, Some(42));
    assert_eq!(ok.failure_count, 0);
    assert_eq!(ok.last_error, None);

    let bad = acc.record_run_result(&SyncOutcome::Failure("nope".to_string()), 42);
    assert_eq!(bad.last_success_at, Some(5));
    assert_eq!(bad.failure_count, 4);
    assert_eq!(bad.last_error, Some("nope".to_string()));
}

#[test]
fn registration_builds_a_fresh_account() {
    let acc = Account::from_registration(
        RegisterAccount {
            host: "h".to_string(),
            token: "tok".to_string(),
        },
        CredentialAccount {
            id: "1".to_string(),
            username: "alice".to_string(),
        },
        77,
    );
    assert_eq!(acc.host, "h");
    assert_eq!(acc.username, "alice");
    assert_eq!(acc.token, "tok");
    assert_eq!(acc.created_at, 77);
    assert_eq!(acc.last_success_at, None);
    assert_eq!(acc.failure_count, 0);
    assert_eq!(acc.last_error, None);
    assert_eq!(acc.primary_key().as_handle(), "alice@h".to_string());
}

/// The sweep takes stale, under-the-ceiling accounts, at most ten.
#[test]
fn sweep_selection_filters_and_caps() {
    let now = 1_000_000;
    let mut accounts = Vec::new();
    accounts.push(account("h", "never", None, 0));
    accounts.push(account("h", "fresh", Some(now - 86_400), 0));
    accounts.push(account("h", "failing", Some(now - 90_000), 10));
    for i in 0..11 {
        accounts.push(account("h", &format!("stale{}", i), Some(now - 90_000), 9));
    }
    let picked = select_sweep_accounts(&accounts, now);
    assert_eq!(picked.len(), 10);
    for (i, a) in picked.iter().enumerate() {
        assert_eq!(a.username, format!("stale{}", i));
    }
}

#[test]
fn logged_in_account_or_needs_auth() {
    let yes = LoggedIn {
        account: Some(AccountPk {
            host: "h".to_string(),
            username: "u".to_string(),
        }),
    };
    let got = yes.account().unwrap();
    assert_eq!(got.host, "h");
    assert_eq!(got.username, "u");

    let no = LoggedIn { account: None };
    assert_eq!(no.account().unwrap_err(), ResponseError::NeedsAuth);
}
