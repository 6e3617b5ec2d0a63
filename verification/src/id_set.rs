//! A small set of account ids, kept as a vector of pairwise-distinct
//! strings in insertion order, together with the chunking helper used for
//! batched requests.

use vstd::prelude::*;

verus! {

/// No id occurs twice in `s`.
pub open spec fn distinct_ids(s: Seq<Seq<char>>) -> bool {
    forall|i: int, j: int| 0 <= i < j < s.len() ==> s[i] != s[j]
}

/// The view of a vector of id strings: the sequence of their character
/// sequences.
pub open spec fn ids_view(v: Seq<String>) -> Seq<Seq<char>> {
    v.map_values(|s: String| s@)
}

/// A set of account ids: pairwise-distinct strings in insertion order.
pub struct IdSet {
    ids: Vec<String>,
}

impl View for IdSet {
    type V = Seq<Seq<char>>;

    closed spec fn view(&self) -> Seq<Seq<char>> {
        ids_view(self.ids@)
    }
}

impl IdSet {
    /// The ids as a mathematical set.
    pub open spec fn set(&self) -> Set<Seq<char>> {
        self@.to_set()
    }

    /// Well-formed: no id occurs twice.
    pub open spec fn wf(&self) -> bool {
        distinct_ids(self@)
    }

    pub fn new() -> (r: IdSet)
        ensures
            r@ == Seq::<Seq<char>>::empty(),
            r.wf(),
    {
        let r = IdSet { ids: Vec::new() };
        proof {
            assert(r@ =~= Seq::<Seq<char>>::empty());
        }
        r
    }

    pub fn len(&self) -> (n: usize)
        ensures
            n == self@.len(),
    {
        self.ids.len()
    }

    pub fn is_empty(&self) -> (r: bool)
        ensures
            r == (self@.len() == 0),
    {
        self.ids.len() == 0
    }

    pub fn contains(&self, id: &String) -> (r: bool)
        ensures
            r == self@.contains(id@),
    {
        let n = self.ids.len();
        for i in 0..n
            invariant
                n == self.ids.len(),
                forall|k: int| 0 <= k < i ==> self@[k] != id@,
        {
            if self.ids[i] == *id {
                assert(self@[i as int] == id@);
                return true;
            }
        }
        false
    }

    /// Add `id` unless it is already present.
    pub fn insert(&mut self, id: String)
        ensures
            final(self)@ == if old(self)@.contains(id@) {
                old(self)@
            } else {
                old(self)@.push(id@)
            },
            old(self).wf() ==> final(self).wf(),
    {
        if !self.contains(&id) {
            let ghost prev = self.ids@;
            self.ids.push(id);
            proof {
                assert(self@ =~= ids_view(prev).push(self.ids@.last()@));
                if distinct_ids(ids_view(prev)) {
                    assert forall|i: int, j: int| 0 <= i < j < self@.len() implies self@[i]
                        != self@[j] by {
                        if j == self@.len() - 1 {
                            assert(!ids_view(prev).contains(self@[j]));
                        }
                    }
                }
            }
        }
    }

    /// Remove `id` if present; report whether it was.
    pub fn remove(&mut self, id: &String) -> (removed: bool)
        requires
            old(self).wf(),
        ensures
            removed == old(self)@.contains(id@),
            final(self)@ == old(self)@.remove_value(id@),
            final(self).wf(),
    {
        let n = self.ids.len();
        for i in 0..n
            invariant
                n == self.ids.len(),
                self == old(self),
                old(self).wf(),
                forall|k: int| 0 <= k < i ==> self@[k] != id@,
        {
            if self.ids[i] == *id {
                proof {
                    assert(self@[i as int] == id@);
                    old(self)@.index_of_first_ensures(id@);
                }
                self.ids.remove(i);
                proof {
                    assert(self@ =~= old(self)@.remove(i as int));
                    assert(old(self)@.index_of_first(id@) == Some(i as int));
                    lemma_remove_distinct(old(self)@, i as int);
                }
                return true;
            }
        }
        proof {
            assert(!old(self)@.contains(id@));
            old(self)@.index_of_first_ensures(id@);
        }
        false
    }

    /// The ids of `self` that are also in `other`, in the order of `self`.
    pub fn intersect(&self, other: &IdSet) -> (r: IdSet)
        ensures
            r@ == self@.filter(|x: Seq<char>| other@.contains(x)),
            self.wf() ==> r.wf(),
    {
        let ghost pred = |x: Seq<char>| other@.contains(x);
        let mut out: Vec<String> = Vec::new();
        let n = self.ids.len();
        proof {
            reveal(Seq::filter);
            assert(self@.take(0).filter(pred) =~= Seq::<Seq<char>>::empty());
            assert(ids_view(out@) =~= Seq::<Seq<char>>::empty());
        }
        for i in 0..n
            invariant
                n == self.ids.len(),
                ids_view(out@) == self@.take(i as int).filter(|x: Seq<char>| other@.contains(x)),
        {
            proof {
                reveal(Seq::filter);
                assert(self@.take(i + 1).drop_last() =~= self@.take(i as int));
                assert(self@.take(i + 1).last() == self@[i as int]);
            }
            let ghost prev = out@;
            if other.contains(&self.ids[i]) {
                out.push(self.ids[i].clone());
                proof {
                    assert(ids_view(out@) =~= ids_view(prev).push(self@[i as int]));
                }
            }
            proof {
                assert(ids_view(out@) =~= self@.take(i + 1).filter(
                    |x: Seq<char>| other@.contains(x),
                ));
            }
        }
        proof {
            assert(self@.take(n as int) =~= self@);
        }
        let r = IdSet { ids: out };
        proof {
            if self.wf() {
                lemma_filter_distinct(self@, pred);
            }
        }
        r
    }

    /// Hand the ids out as a plain vector, order kept.
    pub fn into_vec(self) -> (r: Vec<String>)
        ensures
            ids_view(r@) == self@,
    {
        self.ids
    }

    /// Borrow the ids, order kept.
    pub fn as_vec(&self) -> (r: &Vec<String>)
        ensures
            ids_view(r@) == self@,
    {
        &self.ids
    }
}

/// Removing one element of a sequence of pairwise-distinct ids keeps the
/// rest distinct.
pub proof fn lemma_remove_distinct(s: Seq<Seq<char>>, i: int)
    requires
        distinct_ids(s),
        0 <= i < s.len(),
    ensures
        distinct_ids(s.remove(i)),
{
    s.remove_ensures(i);
    let r = s.remove(i);
    assert forall|p: int, q: int| 0 <= p < q < r.len() implies r[p] != r[q] by {
        if p < i {
            assert(r[p] == s[p]);
        } else {
            assert(r[p] == s[p + 1]);
        }
        if q < i {
            assert(r[q] == s[q]);
        } else {
            assert(r[q] == s[q + 1]);
        }
    }
}

/// Filtering a sequence of pairwise-distinct ids keeps them distinct.
pub proof fn lemma_filter_distinct(s: Seq<Seq<char>>, p: spec_fn(Seq<char>) -> bool)
    requires
        distinct_ids(s),
    ensures
        distinct_ids(s.filter(p)),
    decreases s.len(),
{
    reveal(Seq::filter);
    if s.len() > 0 {
        lemma_filter_distinct(s.drop_last(), p);
        let f = s.drop_last().filter(p);
        if p(s.last()) {
            assert forall|i: int, j: int| 0 <= i < j < s.filter(p).len() implies s.filter(p)[i]
                != s.filter(p)[j] by {
                if j == f.len() {
                    assert(s.filter(p)[j] == s.last());
                    lemma_filter_membership(s.drop_last(), p);
                    assert(f.contains(f[i]));
                    let w = choose|w: int| 0 <= w < s.drop_last().len() && s.drop_last()[w] == f[i];
                    assert(s[w] == f[i]);
                    assert(s[s.len() - 1] == s.last());
                }
            }
        }
    }
}

/// `s.filter(p)` contains exactly the elements of `s` satisfying `p`.
pub proof fn lemma_filter_membership(s: Seq<Seq<char>>, p: spec_fn(Seq<char>) -> bool)
    ensures
        forall|x: Seq<char>| #[trigger] s.filter(p).contains(x) <==> s.contains(x) && p(x),
    decreases s.len(),
{
    reveal(Seq::filter);
    if s.len() > 0 {
        lemma_filter_membership(s.drop_last(), p);
        let f = s.drop_last().filter(p);
        assert forall|x: Seq<char>| #[trigger] s.filter(p).contains(x) implies s.contains(x) && p(
            x,
        ) by {
            let i = choose|i: int| 0 <= i < s.filter(p).len() && s.filter(p)[i] == x;
            if i < f.len() {
                assert(f.contains(x));
                let j = choose|j: int| 0 <= j < s.drop_last().len() && s.drop_last()[j] == x;
                assert(s[j] == x);
            } else {
                assert(x == s.last());
                assert(s[s.len() - 1] == x);
            }
        }
        assert forall|x: Seq<char>| s.contains(x) && p(x) implies #[trigger] s.filter(p).contains(
            x,
        ) by {
            let i = choose|i: int| 0 <= i < s.len() && s[i] == x;
            if i < s.len() - 1 {
                assert(s.drop_last()[i] == x);
                assert(s.drop_last().contains(x));
                assert(f.contains(x));
                let j = choose|j: int| 0 <= j < f.len() && f[j] == x;
                assert(s.filter(p)[j] == x);
            } else {
                assert(x == s.last());
                if p(s.last()) {
                    assert(s.filter(p).last() == x);
                }
            }
        }
    }
}

/// Ceiling division: how many chunks of size `c` cover `n` items.
pub open spec fn ceil_div(n: int, c: int) -> int {
    (n + c - 1) / c
}

/// The concatenation of a sequence of chunks.
pub open spec fn flat(cs: Seq<Seq<String>>) -> Seq<String>
    decreases cs.len(),
{
    if cs.len() == 0 {
        Seq::empty()
    } else {
        flat(cs.drop_last()) + cs.last()
    }
}

/// The chunks of `cs`, concatenated, as id-character sequences.
pub open spec fn flat_ids(cs: Seq<Vec<String>>) -> Seq<Seq<char>> {
    ids_view(flat(cs.map_values(|c: Vec<String>| c@)))
}

/// Every chunk holds at most `c` items, none is empty, and every chunk but
/// the last holds exactly `c`.
pub open spec fn chunked(cs: Seq<Vec<String>>, c: int) -> bool {
    &&& forall|k: int| 0 <= k < cs.len() ==> 0 < #[trigger] cs[k]@.len() <= c
    &&& forall|k: int| 0 <= k < cs.len() - 1 ==> #[trigger] cs[k]@.len() == c
}

/// Split `ids` into consecutive chunks of `chunk_size`, the last possibly
/// shorter: one batch request is issued per chunk.
pub fn chunk_ids(ids: &Vec<String>, chunk_size: usize) -> (chunks: Vec<Vec<String>>)
    requires
        chunk_size >= 1,
    ensures
        chunks@.len() == ceil_div(ids@.len() as int, chunk_size as int),
        flat(chunks@.map_values(|c: Vec<String>| c@)) == ids@,
        chunked(chunks@, chunk_size as int),
{
    let n = ids.len();
    let mut chunks: Vec<Vec<String>> = Vec::new();
    let mut i: usize = 0;
    proof {
        assert(chunks@.map_values(|c: Vec<String>| c@) =~= Seq::<Seq<String>>::empty());
        assert(flat(chunks@.map_values(|c: Vec<String>| c@)) =~= ids@.take(0));
    }
    while i < n
        invariant
            n == ids@.len(),
            chunk_size >= 1,
            i <= n,
            (i == chunks@.len() * chunk_size && (forall|k: int|
                0 <= k < chunks@.len() ==> (#[trigger] chunks@[k]@.len()) == chunk_size)) || (i == n
                && chunks@.len() >= 1 && (chunks@.len() - 1) * chunk_size < n <= chunks@.len()
                * chunk_size && chunked(chunks@, chunk_size as int)),
            flat(chunks@.map_values(|c: Vec<String>| c@)) == ids@.take(i as int),
        decreases n - i,
    {
        proof {
            assert(chunks@.len() * chunk_size >= 0) by (nonlinear_arith)
                requires
                    chunk_size >= 1,
                    chunks@.len() >= 0,
            ;
        }
        let take = if n - i < chunk_size {
            n - i
        } else {
            chunk_size
        };
        let mut chunk: Vec<String> = Vec::new();
        let mut j: usize = 0;
        proof {
            assert(chunk@ =~= ids@.subrange(i as int, i as int));
        }
        while j < take
            invariant
                i + take <= n,
                n == ids@.len(),
                j <= take,
                chunk@ == ids@.subrange(i as int, i + j),
            decreases take - j,
        {
            chunk.push(ids[i + j].clone());
            proof {
                assert(chunk@ =~= ids@.subrange(i as int, i + j + 1));
            }
            j += 1;
        }
        let ghost old_chunks = chunks@;
        let ghost old_i = i as int;
        chunks.push(chunk);
        i += take;
        proof {
            assert((old_chunks.len() + 1) * chunk_size == old_chunks.len() * chunk_size
                + chunk_size) by (nonlinear_arith);
            if take < chunk_size {
                assert(i == n);
                assert((chunks@.len() - 1) * chunk_size == old_chunks.len() * chunk_size);
                assert(n <= chunks@.len() * chunk_size);
            }
            let m = chunks@.map_values(|c: Vec<String>| c@);
            assert(m.drop_last() =~= old_chunks.map_values(|c: Vec<String>| c@));
            assert(m.last() == ids@.subrange(old_i, i as int));
            assert(flat(m) =~= ids@.take(i as int));
        }
    }
    proof {
        assert(ids@.take(n as int) =~= ids@);
        let k = chunks@.len() as int;
        let c = chunk_size as int;
        assert(chunked(chunks@, c));
        if n == 0 {
            assert(k * c == 0 ==> k == 0) by (nonlinear_arith)
                requires
                    c >= 1,
                    k >= 0,
            ;
            assert(ceil_div(0, c) == 0) by (nonlinear_arith)
                requires
                    c >= 1,
            ;
        } else {
            assert((k - 1) * c < n) by (nonlinear_arith)
                requires
                    c >= 1,
                    n >= 1,
                    k >= 0,
                    (i == k * c && i == n) || ((k - 1) * c < n),
            ;
            assert(n <= k * c);
            assert(ceil_div(n as int, c) == k) by (nonlinear_arith)
                requires
                    c >= 1,
                    (k - 1) * c < n <= k * c,
            ;
        }
    }
    chunks
}

} // verus!
