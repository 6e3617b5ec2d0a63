//! Accounts and the per-account sync scheduler.
//!
//! The scheduler keeps at most one sync job in flight per account.  An
//! entry in the registry means a job is running or has finished and its
//! result awaits its one consumer; no entry means no job.  A request for an
//! account in cooldown (a success within the last thirty minutes) starts
//! nothing.  The whole decision is one step of a state machine, so a caller
//! can take it under a single critical section.
//!
//! Timestamps are seconds; dates inside accounts are whatever the caller
//! settles on, as long as it is consistent.

use vstd::prelude::*;
use vstd::string::StringExecFns;

use crate::api_models::CredentialAccount;

verus! {

/// Seconds after a successful sync during which a new request is refused.
pub const COOLDOWN_SECONDS: i64 = 1800;

/// An account may fail this many times before the sweep passes it over.
pub const SWEEP_FAILURE_CEILING: i64 = 10;

/// How many accounts one sweep may sync.
pub const SWEEP_BATCH_SIZE: usize = 10;

/// Seconds after a success before the sweep considers an account stale.
pub const SWEEP_MIN_AGE_SECONDS: i64 = 86400;

/// The key of an account: host and username.
#[derive(Debug)]
pub struct AccountPk {
    pub host: String,
    pub username: String,
}

impl View for AccountPk {
    type V = (Seq<char>, Seq<char>);

    open spec fn view(&self) -> (Seq<char>, Seq<char>) {
        (self.host@, self.username@)
    }
}

impl Clone for AccountPk {
    fn clone(&self) -> (res: Self)
        ensures
            res == *self,
    {
        AccountPk { host: self.host.clone(), username: self.username.clone() }
    }
}

impl AccountPk {
    /// The account's handle: `username@host`.
    pub fn as_handle(&self) -> (r: String)
        ensures
            r@ == self.username@.push('@') + self.host@,
    {
        let mut r = self.username.clone();
        r.append("@");
        r.append(self.host.as_str());
        proof {
            reveal_strlit("@");
            assert(r@ =~= self.username@.push('@') + self.host@);
        }
        r
    }
}

/// A registered account as the store keeps it.
#[derive(Debug)]
pub struct Account {
    pub host: String,
    pub username: String,
    pub token: String,
    pub created_at: i64,
    pub last_success_at: Option<i64>,
    pub failure_count: i64,
    pub last_error: Option<String>,
}

impl Clone for Account {
    fn clone(&self) -> (res: Self)
        ensures
            res == *self,
    {
        Account {
            host: self.host.clone(),
            username: self.username.clone(),
            token: self.token.clone(),
            created_at: self.created_at,
            last_success_at: self.last_success_at,
            failure_count: self.failure_count,
            last_error: match &self.last_error {
                Some(e) => Some(e.clone()),
                None => None,
            },
        }
    }
}

/// What a registration carries: the host and a bearer credential.
#[derive(Debug)]
pub struct RegisterAccount {
    pub host: String,
    pub token: String,
}

impl Account {
    pub fn primary_key(&self) -> (r: AccountPk)
        ensures
            r@ == (self.host@, self.username@),
    {
        AccountPk { host: self.host.clone(), username: self.username.clone() }
    }

    /// The account's scheduler key.
    pub open spec fn key(&self) -> (Seq<char>, Seq<char>) {
        (self.host@, self.username@)
    }

    /// The account a fresh registration stores: the host and credential as
    /// registered, the username the service reported, never synced yet.
    pub fn from_registration(reg: RegisterAccount, cred: CredentialAccount, now: i64) -> (r:
        Account)
        ensures
            r.host == reg.host,
            r.token == reg.token,
            r.username == cred.username,
            r.created_at == now,
            r.last_success_at is None,
            r.failure_count == 0,
            r.last_error is None,
    {
        Account {
            host: reg.host,
            token: reg.token,
            username: cred.username,
            created_at: now,
            last_success_at: None,
            failure_count: 0,
            last_error: None,
        }
    }

    /// The account after one run: a success stamps `last_success_at`,
    /// clears the failure count and the last error; a failure increments
    /// the failure count and stores the error, leaving `last_success_at`
    /// alone.
    pub fn record_run_result(&self, outcome: &SyncOutcome, now: i64) -> (r: Account)
        requires
            self.failure_count < i64::MAX,
        ensures
            r.host == self.host,
            r.username == self.username,
            r.token == self.token,
            r.created_at == self.created_at,
            outcome is Success ==> r.last_success_at == Some(now) && r.failure_count == 0
                && r.last_error is None,
            outcome matches SyncOutcome::Failure(m) ==> r.last_success_at == self.last_success_at
                && r.failure_count == self.failure_count + 1 && r.last_error == Some(*m),
    {
        match outcome {
            SyncOutcome::Success => Account {
                last_success_at: Some(now),
                failure_count: 0,
                last_error: None,
                ..self.clone()
            },
            SyncOutcome::Failure(m) => Account {
                failure_count: self.failure_count + 1,
                last_error: Some(m.clone()),
                ..self.clone()
            },
        }
    }
}

/// How a finished sync job ended.
#[derive(Debug)]
pub enum SyncOutcome {
    Success,
    Failure(String),
}

/// The state of the one job an account may have.
#[derive(Debug)]
pub enum SyncJobState {
    Running { started_at: i64 },
    Completed { result: SyncOutcome },
}

/// What an on-demand sync request reports to its caller.
#[derive(Debug)]
pub enum SyncImmediateResult {
    Done,
    Error { value: String },
    Pending,
    TooMany,
}

/// What the caller of `sync_immediate` must do after the step.
#[derive(Debug, PartialEq, Eq, Structural)]
pub enum SyncAction {
    SpawnJob,
    Nothing,
}

/// Is the account still cooling down from a recent success?
pub open spec fn in_cooldown(last_success_at: Option<i64>, now: int) -> bool {
    match last_success_at {
        Some(t) => t > now - COOLDOWN_SECONDS,
        None => false,
    }
}

/// A finished job's outcome as the requester sees it.
pub open spec fn outcome_result(o: SyncOutcome) -> SyncImmediateResult {
    match o {
        SyncOutcome::Success => SyncImmediateResult::Done,
        SyncOutcome::Failure(m) => SyncImmediateResult::Error { value: m },
    }
}

/// One atomic step of the dedup scheduler, as `sync_immediate` performs
/// it: the registry after the step, the result reported, and whether the
/// caller must spawn a job.
pub open spec fn sync_immediate_spec(
    jobs: Map<(Seq<char>, Seq<char>), SyncJobState>,
    key: (Seq<char>, Seq<char>),
    last_success_at: Option<i64>,
    now: i64,
) -> (Map<(Seq<char>, Seq<char>), SyncJobState>, SyncImmediateResult, SyncAction) {
    if !jobs.dom().contains(key) {
        if in_cooldown(last_success_at, now as int) {
            (jobs, SyncImmediateResult::TooMany, SyncAction::Nothing)
        } else {
            (
                jobs.insert(key, SyncJobState::Running { started_at: now }),
                SyncImmediateResult::Pending,
                SyncAction::SpawnJob,
            )
        }
    } else {
        match jobs[key] {
            SyncJobState::Running { .. } => (
                jobs,
                SyncImmediateResult::Pending,
                SyncAction::Nothing,
            ),
            SyncJobState::Completed { result } => (
                jobs.remove(key),
                outcome_result(result),
                SyncAction::Nothing,
            ),
        }
    }
}

/// How a finished job settles in the registry: a running entry becomes
/// completed; anything else is left alone.
pub open spec fn finish_job_spec(
    jobs: Map<(Seq<char>, Seq<char>), SyncJobState>,
    key: (Seq<char>, Seq<char>),
    outcome: SyncOutcome,
) -> Map<(Seq<char>, Seq<char>), SyncJobState> {
    if jobs.dom().contains(key) && jobs[key] is Running {
        jobs.insert(key, SyncJobState::Completed { result: outcome })
    } else {
        jobs
    }
}

/// One registry entry: an account key and its job state.
struct JobEntry {
    pk: AccountPk,
    state: SyncJobState,
}

/// The map an entry list stands for; a later entry of the same key would
/// win, but a well-formed registry has no such pair.
pub open spec fn entries_map_of(es: Seq<(

    (Seq<char>, Seq<char>),
    SyncJobState,
)>) -> Map<(Seq<char>, Seq<char>), SyncJobState>
    decreases es.len(),
{
    if es.len() == 0 {
        Map::empty()
    } else {
        entries_map_of(es.drop_last()).insert(es.last().0, es.last().1)
    }
}

/// The dedup registry: at most one job entry per account.
pub struct SyncRegistry {
    entries: Vec<JobEntry>,
}

impl SyncRegistry {
    /// The entries as key/state pairs.
    pub closed spec fn entries_spec(&self) -> Seq<((Seq<char>, Seq<char>), SyncJobState)> {
        self.entries@.map_values(|e: JobEntry| (e.pk@, e.state))
    }

    /// The registry as a map from account key to job state.
    pub open spec fn jobs(&self) -> Map<(Seq<char>, Seq<char>), SyncJobState> {
        entries_map_of(self.entries_spec())
    }

    /// No two entries share a key.
    pub open spec fn wf(&self) -> bool {
        forall|i: int, j: int|
            0 <= i < j < self.entries_spec().len() ==> (#[trigger] self.entries_spec()[i]).0 != (
            #[trigger] self.entries_spec()[j]).0
    }

    pub fn new() -> (r: SyncRegistry)
        ensures
            r.wf(),
            r.jobs() == Map::<(Seq<char>, Seq<char>), SyncJobState>::empty(),
    {
        let r = SyncRegistry { entries: Vec::new() };
        proof {
            assert(r.entries_spec() =~= Seq::<((Seq<char>, Seq<char>), SyncJobState)>::empty());
        }
        r
    }

    /// Is a job entry present for this account?
    pub fn contains_job(&self, pk: &AccountPk) -> (r: bool)
        requires
            self.wf(),
        ensures
            r == self.jobs().dom().contains(pk@),
    {
        proof {
            lemma_entries_map(self.entries_spec());
        }
        let n = self.entries.len();
        for i in 0..n
            invariant
                n == self.entries.len(),
                self.wf(),
                forall|k: int| 0 <= k < i ==> (#[trigger] self.entries_spec()[k]).0 != pk@,
                forall|k: (Seq<char>, Seq<char>)|
                    #[trigger] self.jobs().dom().contains(k) <==> exists|j: int|
                        0 <= j < self.entries_spec().len() && (#[trigger] self.entries_spec()[j]).0
                            == k,
        {
            if self.entries[i].pk.host == pk.host && self.entries[i].pk.username == pk.username {
                proof {
                    assert((self.entries_spec()[i as int]).0 == pk@);
                }
                return true;
            }
        }
        false
    }
}

/// Membership and lookup in the map an entry list stands for, when no two
/// entries share a key.
proof fn lemma_entries_map(es: Seq<((Seq<char>, Seq<char>), SyncJobState)>)
    requires
        forall|i: int, j: int|
            0 <= i < j < es.len() ==> (#[trigger] es[i]).0 != (#[trigger] es[j]).0,
    ensures
        forall|k: (Seq<char>, Seq<char>)|
            #[trigger] entries_map_of(es).dom().contains(k) <==> exists|j: int|
                0 <= j < es.len() && (#[trigger] es[j]).0 == k,
        forall|j: int|
            0 <= j < es.len() ==> entries_map_of(es)[(#[trigger] es[j]).0] == es[j].1,
    decreases es.len(),
{
    if es.len() > 0 {
        lemma_entries_map(es.drop_last());
        assert forall|k: (Seq<char>, Seq<char>)| #[trigger]
            entries_map_of(es).dom().contains(k) implies exists|j: int|
            0 <= j < es.len() && (#[trigger] es[j]).0 == k by {
            if k == es.last().0 {
                assert((es[es.len() - 1]).0 == k);
            } else {
                assert(entries_map_of(es.drop_last()).dom().contains(k));
                let j = choose|j: int|
                    0 <= j < es.drop_last().len() && (#[trigger] es.drop_last()[j]).0 == k;
                assert((es[j]).0 == k);
            }
        }
        assert forall|k: (Seq<char>, Seq<char>)|
            exists|j: int| 0 <= j < es.len() && (#[trigger] es[j]).0 == k implies #[trigger]
            entries_map_of(es).dom().contains(k) by {
            let j = choose|j: int| 0 <= j < es.len() && (#[trigger] es[j]).0 == k;
            if j < es.len() - 1 {
                assert((es.drop_last()[j]).0 == k);
            }
        }
        assert forall|j: int| 0 <= j < es.len() implies entries_map_of(es)[(#[trigger] es[j]).0]
            == es[j].1 by {
            if j < es.len() - 1 {
                assert((es.drop_last()[j]).0 == es[j].0);
                assert((es[j]).0 != (es[es.len() - 1]).0);
            }
        }
    }
}


/// Removing an entry removes exactly its key from the map.
proof fn lemma_entries_map_remove(es: Seq<((Seq<char>, Seq<char>), SyncJobState)>, i: int)
    requires
        forall|p: int, q: int|
            0 <= p < q < es.len() ==> (#[trigger] es[p]).0 != (#[trigger] es[q]).0,
        0 <= i < es.len(),
    ensures
        entries_map_of(es.remove(i)) == entries_map_of(es).remove(es[i].0),
    decreases es.len(),
{
    let k = es[i].0;
    es.remove_ensures(i);
    if i == es.len() - 1 {
        assert(es.remove(i) =~= es.drop_last());
        lemma_entries_map(es.drop_last());
        assert(!entries_map_of(es.drop_last()).dom().contains(k)) by {
            if entries_map_of(es.drop_last()).dom().contains(k) {
                let j = choose|j: int|
                    0 <= j < es.drop_last().len() && (#[trigger] es.drop_last()[j]).0 == k;
                assert((es[j]).0 == k);
            }
        }
        assert(entries_map_of(es).remove(k) =~= entries_map_of(es.drop_last()));
    } else {
        assert(es.remove(i).drop_last() =~= es.drop_last().remove(i));
        assert(es.remove(i).last() == es.last());
        lemma_entries_map_remove(es.drop_last(), i);
        assert(k == es.drop_last()[i].0);
        assert(k != es.last().0);
        assert(entries_map_of(es).remove(k) =~= entries_map_of(es.drop_last()).remove(k).insert(
            es.last().0,
            es.last().1,
        ));
    }
}

/// Replacing an entry's state, key kept, overwrites exactly its key.
proof fn lemma_entries_map_update(
    es: Seq<((Seq<char>, Seq<char>), SyncJobState)>,
    i: int,
    v: SyncJobState,
)
    requires
        forall|p: int, q: int|
            0 <= p < q < es.len() ==> (#[trigger] es[p]).0 != (#[trigger] es[q]).0,
        0 <= i < es.len(),
    ensures
        entries_map_of(es.update(i, (es[i].0, v))) == entries_map_of(es).insert(es[i].0, v),
    decreases es.len(),
{
    let k = es[i].0;
    let up = es.update(i, (k, v));
    if i == es.len() - 1 {
        assert(up.drop_last() =~= es.drop_last());
        assert(up.last() == (k, v));
        assert(entries_map_of(up) =~= entries_map_of(es).insert(k, v));
    } else {
        assert(up.drop_last() =~= es.drop_last().update(i, (k, v)));
        assert(up.last() == es.last());
        lemma_entries_map_update(es.drop_last(), i, v);
        assert(k == es.drop_last()[i].0);
        assert(k != es.last().0);
        assert(entries_map_of(up) =~= entries_map_of(es).insert(k, v));
    }
}

/// Removing an entry keeps the remaining keys pairwise distinct.
proof fn lemma_entries_remove_distinct(es: Seq<((Seq<char>, Seq<char>), SyncJobState)>, i: int)
    requires
        forall|p: int, q: int|
            0 <= p < q < es.len() ==> (#[trigger] es[p]).0 != (#[trigger] es[q]).0,
        0 <= i < es.len(),
    ensures
        forall|p: int, q: int|
            0 <= p < q < es.remove(i).len() ==> (#[trigger] es.remove(i)[p]).0 != (
            #[trigger] es.remove(i)[q]).0,
{
    es.remove_ensures(i);
    assert forall|p: int, q: int| 0 <= p < q < es.remove(i).len() implies (#[trigger] es.remove(
        i,
    )[p]).0 != (#[trigger] es.remove(i)[q]).0 by {
        let op = if p < i {
            p
        } else {
            p + 1
        };
        let oq = if q < i {
            q
        } else {
            q + 1
        };
        assert(es.remove(i)[p] == es[op]);
        assert(es.remove(i)[q] == es[oq]);
    }
}

impl SyncRegistry {
    /// The index of this account's entry, if it has one.
    fn find_entry(&self, host: &String, username: &String) -> (r: Option<usize>)
        ensures
            match r {
                Some(i) => i < self.entries_spec().len() && (self.entries_spec()[i as int]).0 == (
                    host@,
                    username@,
                ),
                None => forall|j: int|
                    0 <= j < self.entries_spec().len() ==> (#[trigger] self.entries_spec()[j]).0
                        != (host@, username@),
            },
    {
        let n = self.entries.len();
        for i in 0..n
            invariant
                n == self.entries.len(),
                forall|j: int|
                    0 <= j < i ==> (#[trigger] self.entries_spec()[j]).0 != (host@, username@),
        {
            if self.entries[i].pk.host == *host && self.entries[i].pk.username == *username {
                proof {
                    assert((self.entries_spec()[i as int]).0 == (host@, username@));
                }
                return Some(i);
            }
            proof {
                assert((self.entries_spec()[i as int]).0 != (host@, username@));
            }
        }
        None
    }

    /// One on-demand sync request, taken as a single atomic step: enforce
    /// the cooldown, deduplicate against a job in flight, or consume a
    /// finished job's result, exactly once.  The caller spawns a job
    /// exactly when `SpawnJob` comes back, and reports the result.
    pub fn sync_immediate(&mut self, account: &Account, now: i64) -> (r: (
        SyncImmediateResult,
        SyncAction,
    ))
        requires
            old(self).wf(),
        ensures
            final(self).wf(),
            (final(self).jobs(), r.0, r.1) == sync_immediate_spec(
                old(self).jobs(),
                account.key(),
                account.last_success_at,
                now,
            ),
    {
        proof {
            lemma_entries_map(self.entries_spec());
        }
        let found = self.find_entry(&account.host, &account.username);
        match found {
            None => {
                proof {
                    assert(!self.jobs().dom().contains(account.key()));
                }
                let cooled = match account.last_success_at {
                    Some(t) => (t as i128) > (now as i128) - (COOLDOWN_SECONDS as i128),
                    None => false,
                };
                if cooled {
                    (SyncImmediateResult::TooMany, SyncAction::Nothing)
                } else {
                    let ghost old_es = self.entries_spec();
                    proof {
                        assert(forall|j: int|
                            0 <= j < old_es.len() ==> (#[trigger] old_es[j]).0 != account.key());
                    }
                    self.entries.push(
                        JobEntry {
                            pk: account.primary_key(),
                            state: SyncJobState::Running { started_at: now },
                        },
                    );
                    proof {
                        assert(self.entries_spec().drop_last() =~= old_es);
                        assert(self.entries_spec().last() == (
                            account.key(),
                            SyncJobState::Running { started_at: now },
                        ));
                        assert(self.jobs() == entries_map_of(old_es).insert(
                            account.key(),
                            SyncJobState::Running { started_at: now },
                        ));
                        assert forall|p: int, q: int|
                            0 <= p < q < self.entries_spec().len() implies (
                        #[trigger] self.entries_spec()[p]).0 != (
                        #[trigger] self.entries_spec()[q]).0 by {
                            assert(self.entries_spec()[p] == self.entries_spec().drop_last()[p]);
                            assert(self.entries_spec()[p] == old_es[p]);
                            if q == self.entries_spec().len() - 1 {
                                assert(self.entries_spec()[q] == (
                                    account.key(),
                                    SyncJobState::Running { started_at: now },
                                ));
                                assert((old_es[p]).0 != account.key());
                            } else {
                                assert(self.entries_spec()[q] == old_es[q]);
                            }
                        }
                    }
                    (SyncImmediateResult::Pending, SyncAction::SpawnJob)
                }
            },
            Some(i) => {
                proof {
                    assert(self.jobs().dom().contains(account.key()));
                    assert(self.jobs()[account.key()] == (self.entries_spec()[i as int]).1);
                }
                let running = match &self.entries[i].state {
                    SyncJobState::Running { .. } => true,
                    SyncJobState::Completed { .. } => false,
                };
                if running {
                    (SyncImmediateResult::Pending, SyncAction::Nothing)
                } else {
                    let ghost old_es = self.entries_spec();
                    let entry = self.entries.remove(i);
                    proof {
                        assert(self.entries_spec() =~= old_es.remove(i as int));
                        lemma_entries_map_remove(old_es, i as int);
                        lemma_entries_remove_distinct(old_es, i as int);
                    }
                    match entry.state {
                        SyncJobState::Completed { result } => {
                            match result {
                                SyncOutcome::Success => (
                                    SyncImmediateResult::Done,
                                    SyncAction::Nothing,
                                ),
                                SyncOutcome::Failure(m) => (
                                    SyncImmediateResult::Error { value: m },
                                    SyncAction::Nothing,
                                ),
                            }
                        },
                        SyncJobState::Running { .. } => {
                            proof {
                                assert(false);
                            }
                            (SyncImmediateResult::Pending, SyncAction::Nothing)
                        },
                    }
                }
            },
        }
    }

    /// Settle a finished job: its running entry becomes completed, holding
    /// the outcome for the next `sync_immediate` poll to consume.  A job
    /// already consumed, or never started, changes nothing.
    pub fn finish_job(&mut self, pk: &AccountPk, outcome: SyncOutcome)
        requires
            old(self).wf(),
        ensures
            final(self).wf(),
            final(self).jobs() == finish_job_spec(old(self).jobs(), pk@, outcome),
    {
        proof {
            lemma_entries_map(self.entries_spec());
        }
        let found = self.find_entry(&pk.host, &pk.username);
        match found {
            None => {
                proof {
                    assert(!self.jobs().dom().contains(pk@));
                }
            },
            Some(i) => {
                proof {
                    assert(self.jobs().dom().contains(pk@));
                    assert(self.jobs()[pk@] == (self.entries_spec()[i as int]).1);
                }
                let running = match &self.entries[i].state {
                    SyncJobState::Running { .. } => true,
                    SyncJobState::Completed { .. } => false,
                };
                if running {
                    let ghost old_es = self.entries_spec();
                    let entry = self.entries.remove(i);
                    self.entries.insert(
                        i,
                        JobEntry { pk: entry.pk, state: SyncJobState::Completed { result: outcome } },
                    );
                    proof {
                        assert(self.entries_spec() =~= old_es.update(
                            i as int,
                            (pk@, SyncJobState::Completed { result: outcome }),
                        ));
                        assert((old_es[i as int]).0 == pk@);
                        lemma_entries_map_update(
                            old_es,
                            i as int,
                            SyncJobState::Completed { result: outcome },
                        );
                        assert forall|p: int, q: int|
                            0 <= p < q < self.entries_spec().len() implies (
                        #[trigger] self.entries_spec()[p]).0 != (
                        #[trigger] self.entries_spec()[q]).0 by {
                            assert((self.entries_spec()[p]).0 == (old_es[p]).0);
                            assert((self.entries_spec()[q]).0 == (old_es[q]).0);
                        }
                    }
                }
            },
        }
    }
}


/// A request within the cooldown window, with no job in flight, reports
/// `TooMany`, spawns nothing, and leaves the registry unchanged.
pub proof fn lemma_cooldown_blocks(
    jobs: Map<(Seq<char>, Seq<char>), SyncJobState>,
    key: (Seq<char>, Seq<char>),
    last_success_at: Option<i64>,
    now: i64,
)
    requires
        !jobs.dom().contains(key),
        in_cooldown(last_success_at, now as int),
    ensures
        sync_immediate_spec(jobs, key, last_success_at, now) == (
            jobs,
            SyncImmediateResult::TooMany,
            SyncAction::Nothing,
        ),
{
}

/// How many jobs one scheduler action spawns.
pub open spec fn spawns_of(a: SyncAction) -> nat {
    if a is SpawnJob {
        1
    } else {
        0
    }
}

/// `n` sync requests for one account, one after the other: the registry
/// at the end, how many jobs were spawned, and how many requests reported
/// `Pending`.
pub open spec fn repeated_sync_requests(
    jobs: Map<(Seq<char>, Seq<char>), SyncJobState>,
    key: (Seq<char>, Seq<char>),
    last_success_at: Option<i64>,
    now: i64,
    n: nat,
) -> (Map<(Seq<char>, Seq<char>), SyncJobState>, nat, nat)
    decreases n,
{
    if n == 0 {
        (jobs, 0, 0)
    } else {
        let (jobs1, result, action) = sync_immediate_spec(jobs, key, last_success_at, now);
        let (jobs2, spawns, pendings) = repeated_sync_requests(
            jobs1,
            key,
            last_success_at,
            now,
            (n - 1) as nat,
        );
        (
            jobs2,
            spawns_of(action) + spawns,
            (if result is Pending {
                1nat
            } else {
                0nat
            }) + pendings,
        )
    }
}

/// While a job is in flight for an account, any number of further requests
/// spawn nothing, all report `Pending`, and the registry is unchanged.
pub proof fn lemma_dedup_while_running(
    jobs: Map<(Seq<char>, Seq<char>), SyncJobState>,
    key: (Seq<char>, Seq<char>),
    last_success_at: Option<i64>,
    now: i64,
    n: nat,
)
    requires
        jobs.dom().contains(key),
        jobs[key] is Running,
    ensures
        repeated_sync_requests(jobs, key, last_success_at, now, n) == (jobs, 0nat, n),
    decreases n,
{
    if n > 0 {
        lemma_dedup_while_running(jobs, key, last_success_at, now, (n - 1) as nat);
    }
}

/// A burst of requests for an idle account past its cooldown spawns
/// exactly one job; every request of the burst reports `Pending`.
pub proof fn lemma_dedup_burst(
    jobs: Map<(Seq<char>, Seq<char>), SyncJobState>,
    key: (Seq<char>, Seq<char>),
    last_success_at: Option<i64>,
    now: i64,
    n: nat,
)
    requires
        !jobs.dom().contains(key),
        !in_cooldown(last_success_at, now as int),
        n >= 1,
    ensures
        repeated_sync_requests(jobs, key, last_success_at, now, n) == (
            jobs.insert(key, SyncJobState::Running { started_at: now }),
            1nat,
            n,
        ),
{
    let jobs1 = jobs.insert(key, SyncJobState::Running { started_at: now });
    lemma_dedup_while_running(jobs1, key, last_success_at, now, (n - 1) as nat);
}

/// May the sweep run this account: synced successfully at least once,
/// under the failure ceiling, and stale for at least a day?
pub open spec fn sweep_eligible(a: Account, now: int) -> bool {
    &&& a.last_success_at matches Some(t) && t < now - SWEEP_MIN_AGE_SECONDS
    &&& a.failure_count < SWEEP_FAILURE_CEILING
}

/// The eligible accounts, in order.
pub open spec fn sweep_filter(accounts: Seq<Account>, now: int) -> Seq<Account> {
    accounts.filter(|a: Account| sweep_eligible(a, now))
}

/// The accounts one sweep runs: the eligible ones, in order, capped at
/// `SWEEP_BATCH_SIZE`.
pub open spec fn sweep_selection(accounts: Seq<Account>, now: int) -> Seq<Account> {
    let e = sweep_filter(accounts, now);
    if e.len() <= SWEEP_BATCH_SIZE {
        e
    } else {
        e.take(SWEEP_BATCH_SIZE as int)
    }
}

/// Select the accounts a sweep should sync: those with a prior success
/// older than a day and a failure count under the ceiling, at most
/// `SWEEP_BATCH_SIZE` of them, in input order.
pub fn select_sweep_accounts(accounts: &Vec<Account>, now: i64) -> (r: Vec<Account>)
    ensures
        r@ == sweep_selection(accounts@, now as int),
{
    let n = accounts.len();
    let mut r: Vec<Account> = Vec::new();
    let mut i: usize = 0;
    proof {
        reveal(Seq::filter);
        assert(sweep_filter(accounts@.take(0), now as int) =~= Seq::<Account>::empty());
    }
    while i < n
        invariant
            i <= n,
            n == accounts@.len(),
            r@ == sweep_selection(accounts@.take(i as int), now as int),
            r@.len() <= SWEEP_BATCH_SIZE,
        decreases n - i,
    {
        let ghost old_filter = sweep_filter(accounts@.take(i as int), now as int);
        proof {
            reveal(Seq::filter);
            assert(accounts@.take(i + 1).drop_last() =~= accounts@.take(i as int));
            assert(accounts@.take(i + 1).last() == accounts@[i as int]);
        }
        let a = &accounts[i];
        let eligible = match a.last_success_at {
            Some(t) => a.failure_count < SWEEP_FAILURE_CEILING && (t as i128) < (now as i128) - (
            SWEEP_MIN_AGE_SECONDS as i128),
            None => false,
        };
        proof {
            assert(eligible == sweep_eligible(accounts@[i as int], now as int));
        }
        let ghost new_filter = sweep_filter(accounts@.take(i + 1), now as int);
        if eligible && r.len() < SWEEP_BATCH_SIZE {
            proof {
                // fewer than the cap collected, so everything eligible so
                // far was collected
                assert(old_filter == r@);
                assert(new_filter == old_filter.push(accounts@[i as int]));
            }
            r.push(a.clone());
        } else if eligible {
            proof {
                assert(old_filter.len() >= SWEEP_BATCH_SIZE);
                assert(new_filter == old_filter.push(accounts@[i as int]));
                assert(new_filter.take(SWEEP_BATCH_SIZE as int) =~= old_filter.take(
                    SWEEP_BATCH_SIZE as int,
                ));
                if old_filter.len() <= SWEEP_BATCH_SIZE {
                    assert(old_filter.take(SWEEP_BATCH_SIZE as int) =~= old_filter);
                }
            }
        } else {
            proof {
                assert(new_filter == old_filter);
            }
        }
        i += 1;
    }
    proof {
        assert(accounts@.take(n as int) =~= accounts@);
    }
    r
}

} // verus!
