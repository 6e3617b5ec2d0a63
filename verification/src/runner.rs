//! One sync run over an account's lists: keep the lists whose titles
//! parse as filter expressions, in order; the rest are silently skipped.

use vstd::prelude::*;

use crate::api_models::List;
use crate::list_manager::{parse_title, ListManager};

verus! {

/// What one run reports: how many lists were synchronized.
#[derive(Debug)]
pub struct RunStats {
    pub list_count: usize,
}

/// Does this list's title hold a filter expression?
pub open spec fn parseable(l: List) -> bool {
    parse_title(l.title@) is Some
}

/// The managers for the lists whose titles parse, in list order.  A list
/// whose title does not parse is skipped, not an error.
pub fn parse_lists(lists: &Vec<List>) -> (r: Vec<ListManager>)
    ensures
        r@.len() == lists@.filter(|l: List| parseable(l)).len(),
        forall|k: int|
            0 <= k < r@.len() ==> {
                let kept = lists@.filter(|l: List| parseable(l));
                &&& (#[trigger] r@[k]).list_spec() == kept[k]
                &&& r@[k].terms_view() == parse_title(kept[k].title@).unwrap()
                &&& r@[k].wf()
            },
{
    let ghost p = |l: List| parseable(l);
    let n = lists.len();
    let mut r: Vec<ListManager> = Vec::new();
    proof {
        reveal(Seq::filter);
        assert(lists@.take(0).filter(p) =~= Seq::<List>::empty());
    }
    for i in 0..n
        invariant
            n == lists@.len(),
            r@.len() == lists@.take(i as int).filter(|l: List| parseable(l)).len(),
            forall|k: int|
                0 <= k < r@.len() ==> {
                    let kept = lists@.take(i as int).filter(|l: List| parseable(l));
                    &&& (#[trigger] r@[k]).list_spec() == kept[k]
                    &&& r@[k].terms_view() == parse_title(kept[k].title@).unwrap()
                    &&& r@[k].wf()
                },
    {
        proof {
            reveal(Seq::filter);
            assert(lists@.take(i + 1).drop_last() =~= lists@.take(i as int));
            assert(lists@.take(i + 1).last() == lists@[i as int]);
        }
        match ListManager::parse(lists[i].clone()) {
            Some(manager) => {
                r.push(manager);
                proof {
                    let kept = lists@.take(i + 1).filter(|l: List| parseable(l));
                    assert(kept == lists@.take(i as int).filter(|l: List| parseable(l)).push(
                        lists@[i as int],
                    ));
                }
            },
            None => {},
        }
    }
    proof {
        assert(lists@.take(n as int) =~= lists@);
    }
    r
}

} // verus!
