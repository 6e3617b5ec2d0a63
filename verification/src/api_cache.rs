//! Per-run memoization of the account's follow list and of pairwise
//! relationship lookups.
//!
//! The cache never fetches by itself: callers hand it what came back from
//! the service.  The follow list is stored once and then served from
//! memory; relationship lookups are answered from memory where possible,
//! and the rest are requested in fixed-size batches whose layout this
//! module computes.

use vstd::prelude::*;

use crate::api_models::{Account, Relationship};
use crate::id_set::{ceil_div, chunk_ids, chunked, distinct_ids, flat, ids_view, IdSet};

verus! {

/// How many ids one relationship-lookup request may carry.
pub const RELATIONSHIP_FETCH_CHUNK_SIZE: usize = 40;

/// The ids of a sequence of relationships.
pub open spec fn rel_ids(rs: Seq<Relationship>) -> Seq<Seq<char>> {
    rs.map_values(|r: Relationship| r.id@)
}

/// The first relationship in `rs` whose id is `id`, if any.
pub open spec fn rel_lookup(rs: Seq<Relationship>, id: Seq<char>) -> Option<Relationship>
    decreases rs.len(),
{
    if rs.len() == 0 {
        None
    } else if rs[0].id@ == id {
        Some(rs[0])
    } else {
        rel_lookup(rs.drop_first(), id)
    }
}

/// The memoized relationships for the requested ids, in request order.
pub open spec fn known_rels(rs: Seq<Relationship>, ids: Seq<Seq<char>>) -> Seq<Relationship>
    decreases ids.len(),
{
    if ids.len() == 0 {
        Seq::empty()
    } else {
        let prev = known_rels(rs, ids.drop_last());
        match rel_lookup(rs, ids.last()) {
            Some(r) => prev.push(r),
            None => prev,
        }
    }
}

/// The requested ids that are not memoized, in request order.
pub open spec fn missing_ids(rs: Seq<Relationship>, ids: Seq<Seq<char>>) -> Seq<Seq<char>>
    decreases ids.len(),
{
    if ids.len() == 0 {
        Seq::empty()
    } else {
        let prev = missing_ids(rs, ids.drop_last());
        match rel_lookup(rs, ids.last()) {
            Some(r) => prev,
            None => prev.push(ids.last()),
        }
    }
}

/// A fetched relationship merged into the memo: it replaces the entry with
/// its id, or is appended.
pub open spec fn insert_rel(rs: Seq<Relationship>, r: Relationship) -> Seq<Relationship> {
    match rel_ids(rs).index_of_first(r.id@) {
        Some(i) => rs.update(i, r),
        None => rs.push(r),
    }
}

/// A batch of fetched relationships merged into the memo, in order.
pub open spec fn merge_rels(rs: Seq<Relationship>, fetched: Seq<Relationship>) -> Seq<
    Relationship,
>
    decreases fetched.len(),
{
    if fetched.len() == 0 {
        rs
    } else {
        insert_rel(merge_rels(rs, fetched.drop_last()), fetched.last())
    }
}

/// What a relationship query needs beyond the memo: the memoized answers,
/// and the not-yet-known ids laid out as request batches.
pub struct RelationshipPlan {
    pub known: Vec<Relationship>,
    pub missing_chunks: Vec<Vec<String>>,
}

/// Per-run memo of the follow list and of relationship lookups.  Entries
/// are never evicted within one run.
pub struct ApiCache {
    follows: Option<Vec<Account>>,
    relationships: Vec<Relationship>,
}

impl ApiCache {
    /// The memoized follow list, if it was stored.
    pub closed spec fn follows_spec(&self) -> Option<Seq<Account>> {
        match self.follows {
            Some(v) => Some(v@),
            None => None,
        }
    }

    /// The memoized relationships.
    pub closed spec fn rels_spec(&self) -> Seq<Relationship> {
        self.relationships@
    }

    /// Memoized relationship ids are pairwise distinct.
    pub open spec fn wf(&self) -> bool {
        distinct_ids(rel_ids(self.rels_spec()))
    }

    pub fn new() -> (r: ApiCache)
        ensures
            r.follows_spec() is None,
            r.rels_spec() == Seq::<Relationship>::empty(),
            r.wf(),
    {
        let r = ApiCache { follows: None, relationships: Vec::new() };
        proof {
            assert(r.rels_spec() =~= Seq::<Relationship>::empty());
            assert(rel_ids(r.rels_spec()) =~= Seq::<Seq<char>>::empty());
        }
        r
    }

    /// The follow list, served from memory; `None` means it was not
    /// fetched yet in this run.
    pub fn get_follows(&self) -> (r: Option<&Vec<Account>>)
        ensures
            match r {
                Some(v) => self.follows_spec() == Some(v@),
                None => self.follows_spec() is None,
            },
    {
        self.follows.as_ref()
    }

    /// Store the follow list fetched once per run.
    pub fn store_follows(&mut self, accounts: Vec<Account>)
        ensures
            final(self).follows_spec() == Some(accounts@),
            final(self).rels_spec() == old(self).rels_spec(),
            old(self).wf() ==> final(self).wf(),
    {
        self.follows = Some(accounts);
    }

    /// The memoized relationship for `id`, if any.
    pub fn lookup_relationship(&self, id: &String) -> (r: Option<&Relationship>)
        ensures
            match r {
                Some(rel) => rel_lookup(self.rels_spec(), id@) == Some(*rel),
                None => rel_lookup(self.rels_spec(), id@) is None,
            },
    {
        let n = self.relationships.len();
        proof {
            assert(self.rels_spec().skip(0) =~= self.rels_spec());
        }
        for i in 0..n
            invariant
                n == self.relationships.len(),
                rel_lookup(self.rels_spec(), id@) == rel_lookup(
                    self.rels_spec().skip(i as int),
                    id@,
                ),
        {
            proof {
                assert(self.rels_spec().skip(i as int).drop_first() =~= self.rels_spec().skip(
                    i + 1,
                ));
            }
            if self.relationships[i].id == *id {
                return Some(&self.relationships[i]);
            }
        }
        None
    }

    /// The memoized relationships for the requested ids, in request
    /// order.  Once the batches of a query's plan were fetched and
    /// stored, this is the query's full answer.
    pub fn get_relationships(&self, account_ids: &IdSet) -> (r: Vec<Relationship>)
        ensures
            r@ == known_rels(self.rels_spec(), account_ids@),
    {
        let ids = account_ids.as_vec();
        let n = ids.len();
        let mut known: Vec<Relationship> = Vec::new();
        for i in 0..n
            invariant
                n == ids@.len(),
                ids_view(ids@) == account_ids@,
                known@ == known_rels(self.rels_spec(), account_ids@.take(i as int)),
        {
            proof {
                assert(account_ids@.take(i + 1).drop_last() =~= account_ids@.take(i as int));
                assert(account_ids@.take(i + 1).last() == ids@[i as int]@);
            }
            match self.lookup_relationship(&ids[i]) {
                Some(rel) => {
                    known.push(rel.clone());
                },
                None => {},
            }
        }
        proof {
            assert(account_ids@.take(n as int) =~= account_ids@);
        }
        known
    }

    /// Split a relationship query against the memo: the memoized answers,
    /// and the unknown ids in batches of at most
    /// `RELATIONSHIP_FETCH_CHUNK_SIZE`, one request per batch.
    pub fn get_relationships_plan(&self, account_ids: &IdSet) -> (plan: RelationshipPlan)
        ensures
            plan.known@ == known_rels(self.rels_spec(), account_ids@),
            ids_view(flat(plan.missing_chunks@.map_values(|c: Vec<String>| c@))) == missing_ids(
                self.rels_spec(),
                account_ids@,
            ),
            plan.missing_chunks@.len() == ceil_div(
                missing_ids(self.rels_spec(), account_ids@).len() as int,
                RELATIONSHIP_FETCH_CHUNK_SIZE as int,
            ),
            chunked(plan.missing_chunks@, RELATIONSHIP_FETCH_CHUNK_SIZE as int),
    {
        let ids = account_ids.as_vec();
        let n = ids.len();
        let mut known: Vec<Relationship> = Vec::new();
        let mut missing: Vec<String> = Vec::new();
        for i in 0..n
            invariant
                n == ids@.len(),
                ids_view(ids@) == account_ids@,
                known@ == known_rels(self.rels_spec(), account_ids@.take(i as int)),
                ids_view(missing@) == missing_ids(self.rels_spec(), account_ids@.take(i as int)),
        {
            proof {
                assert(account_ids@.take(i + 1).drop_last() =~= account_ids@.take(i as int));
                assert(account_ids@.take(i + 1).last() == ids@[i as int]@);
            }
            let ghost prev_missing = missing@;
            match self.lookup_relationship(&ids[i]) {
                Some(rel) => {
                    known.push(rel.clone());
                },
                None => {
                    missing.push(ids[i].clone());
                    proof {
                        assert(ids_view(missing@) =~= ids_view(prev_missing).push(ids@[i as int]@));
                    }
                },
            }
        }
        proof {
            assert(account_ids@.take(n as int) =~= account_ids@);
        }
        let missing_chunks = chunk_ids(&missing, RELATIONSHIP_FETCH_CHUNK_SIZE);
        RelationshipPlan { known, missing_chunks }
    }

    /// Merge a batch of fetched relationships into the memo, later entries
    /// replacing earlier ones of the same id.
    pub fn store_relationships(&mut self, fetched: &Vec<Relationship>)
        requires
            old(self).wf(),
        ensures
            final(self).rels_spec() == merge_rels(old(self).rels_spec(), fetched@),
            final(self).follows_spec() == old(self).follows_spec(),
            final(self).wf(),
    {
        let m = fetched.len();
        for k in 0..m
            invariant
                m == fetched@.len(),
                self.follows == old(self).follows,
                self.rels_spec() == merge_rels(old(self).rels_spec(), fetched@.take(k as int)),
                self.wf(),
        {
            proof {
                assert(fetched@.take(k + 1).drop_last() =~= fetched@.take(k as int));
                assert(fetched@.take(k + 1).last() == fetched@[k as int]);
            }
            self.insert_relationship(&fetched[k]);
        }
        proof {
            assert(fetched@.take(m as int) =~= fetched@);
        }
    }

    /// Merge one fetched relationship into the memo.
    fn insert_relationship(&mut self, r: &Relationship)
        requires
            old(self).wf(),
        ensures
            final(self).rels_spec() == insert_rel(old(self).rels_spec(), *r),
            final(self).follows == old(self).follows,
            final(self).wf(),
    {
        let n = self.relationships.len();
        for j in 0..n
            invariant
                n == self.relationships.len(),
                self == old(self),
                old(self).wf(),
                forall|k: int| 0 <= k < j ==> rel_ids(self.rels_spec())[k] != r.id@,
        {
            if self.relationships[j].id == r.id {
                proof {
                    assert(rel_ids(self.rels_spec())[j as int] == r.id@);
                    rel_ids(old(self).rels_spec()).index_of_first_ensures(r.id@);
                    assert(rel_ids(old(self).rels_spec()).index_of_first(r.id@) == Some(j as int));
                }
                let repl = r.clone();
                self.relationships.remove(j);
                self.relationships.insert(j, repl);
                proof {
                    assert(self.rels_spec() =~= old(self).rels_spec().update(j as int, *r));
                    assert(rel_ids(self.rels_spec()) =~= rel_ids(old(self).rels_spec()));
                }
                return ;
            }
        }
        proof {
            assert(!rel_ids(old(self).rels_spec()).contains(r.id@));
            rel_ids(old(self).rels_spec()).index_of_first_ensures(r.id@);
        }
        let ghost prev = self.rels_spec();
        self.relationships.push(r.clone());
        proof {
            assert(self.rels_spec() =~= prev.push(*r));
            assert(rel_ids(self.rels_spec()) =~= rel_ids(prev).push(r.id@));
            assert forall|p: int, q: int| 0 <= p < q < rel_ids(self.rels_spec()).len() implies
                rel_ids(self.rels_spec())[p] != rel_ids(self.rels_spec())[q] by {
                if q == rel_ids(self.rels_spec()).len() - 1 {
                    assert(!rel_ids(prev).contains(r.id@));
                    assert(rel_ids(prev)[p] == rel_ids(self.rels_spec())[p]);
                }
            }
        }
    }
}

} // verus!
