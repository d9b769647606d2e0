use vstd::prelude::*;

use crate::DispatchError;
use crate::general::{
    chunk_rel, chunks_of, dispatch_chunks_rel, dispatch_rel, identity_fn, puts_run, results_rel,
    takes_rel, TakePutBack,
};

verus! {

impl<M: Default> TakePutBack<usize, usize> for Vec<M> {
    type ItemType = M;

    type PutType = M;

    open spec fn obs_eq(&self, other: &Self) -> bool {
        self@ == other@
    }

    open spec fn valid_take(&self, i: usize) -> bool {
        i < self@.len()
    }

    open spec fn valid_put(&self, i: usize, v: M) -> bool {
        i < self@.len()
    }

    open spec fn valid_put_idx(&self, i: usize) -> bool {
        i < self@.len()
    }

    open spec fn put_err(&self, i: usize, v: M) -> DispatchError {
        DispatchError::IndexNotFound
    }

    open spec fn take_post(&self, i: usize, post: &Self, item: &M) -> bool {
        &&& i < self@.len()
        &&& *item == self@[i as int]
        &&& exists|d: M|
            #[trigger] call_ensures(M::default, (), d) && post@ == self@.update(i as int, d)
    }

    open spec fn put_post(&self, i: usize, v: M, post: &Self) -> bool {
        &&& i < self@.len()
        &&& post@ == self@.update(i as int, v)
    }

    open spec fn pair_ok(&self, i1: usize, i2: usize) -> bool {
        i2 == i1 && i1 < self@.len()
    }

    open spec fn nothing_rel(x: M, y: M) -> bool {
        y == x
    }

    open spec fn all_idces_post(&self, pairs: Seq<(usize, usize)>) -> bool {
        pairs == Seq::new(self@.len(), |k: int| (k as usize, k as usize))
    }

    fn can_take(&self, index_into: &usize) -> bool {
        *index_into < self.len()
    }

    fn can_put(&self, index_into: &usize) -> bool {
        *index_into < self.len()
    }

    fn take(&mut self, index_into: &usize) -> (r: Result<M, DispatchError>) {
        let i = *index_into;
        if i < self.len() {
            let mut d = M::default();
            core::mem::swap(&mut d, &mut self[i]);
            Ok(d)
        } else {
            Err(DispatchError::IndexNotFound)
        }
    }

    fn put_back(&mut self, index_into: &usize, reinsert: M) -> (r: Result<(), DispatchError>) {
        let i = *index_into;
        if i < self.len() {
            self[i] = reinsert;
            Ok(())
        } else {
            Err(DispatchError::IndexNotFound)
        }
    }

    #[verifier::loop_isolation(false)]
    fn all_idces_inout(&self) -> (r: Vec<(usize, usize)>) {
        let mut r: Vec<(usize, usize)> = Vec::new();
        let mut i: usize = 0;
        while i < self.len()
            invariant
                i <= self@.len(),
                r@ =~= Seq::new(i as nat, |k: int| (k as usize, k as usize)),
            decreases self@.len() - i,
        {
            r.push((i, i));
            i += 1;
            proof {
                assert(r@ =~= Seq::new(i as nat, |k: int| (k as usize, k as usize)));
            }
        }
        proof {
            assert(r@ =~= Seq::new(self@.len(), |k: int| (k as usize, k as usize)));
        }
        r
    }

    fn do_nothing_process(item: M) -> (r: M) {
        item
    }

    proof fn law_take_preserves_valid(&self, i: usize, post: &Self, item: &M, j: usize) {
    }

    proof fn law_put_target(&self, i: usize, v: M) {
    }

    proof fn law_nothing_valid(&self, i1: usize, i2: usize, mid: &Self, item: &M, y: M) {
    }

    proof fn law_nothing_restores(
        &self,
        i1: usize,
        i2: usize,
        mid: &Self,
        item: &M,
        y: M,
        post: &Self,
    ) {
        assert(post@ =~= self@);
    }
}

/// nonempty's NonEmpty is a plain struct of a distinguished head element
/// and a tail vector, both public; Verus reads the fields directly.
#[verifier::external_type_specification]
#[verifier::reject_recursive_types(T)]
pub struct ExNonEmpty<T>(nonempty::NonEmpty<T>);

/// The sequence a non-empty list stands for: its head, then its tail.
pub open spec fn ne_seq<M>(ne: &nonempty::NonEmpty<M>) -> Seq<M> {
    seq![ne.head] + ne.tail@
}

impl<M: Default> TakePutBack<usize, usize> for nonempty::NonEmpty<M> {
    type ItemType = M;

    type PutType = M;

    open spec fn obs_eq(&self, other: &Self) -> bool {
        ne_seq(self) == ne_seq(other)
    }

    open spec fn valid_take(&self, i: usize) -> bool {
        i < ne_seq(self).len()
    }

    open spec fn valid_put(&self, i: usize, v: M) -> bool {
        i < ne_seq(self).len()
    }

    open spec fn valid_put_idx(&self, i: usize) -> bool {
        i < ne_seq(self).len()
    }

    open spec fn put_err(&self, i: usize, v: M) -> DispatchError {
        DispatchError::IndexNotFound
    }

    open spec fn take_post(&self, i: usize, post: &Self, item: &M) -> bool {
        &&& i < ne_seq(self).len()
        &&& *item == ne_seq(self)[i as int]
        &&& exists|d: M|
            #[trigger] call_ensures(M::default, (), d) && ne_seq(post) == ne_seq(self).update(
                i as int,
                d,
            )
    }

    open spec fn put_post(&self, i: usize, v: M, post: &Self) -> bool {
        &&& i < ne_seq(self).len()
        &&& ne_seq(post) == ne_seq(self).update(i as int, v)
    }

    open spec fn pair_ok(&self, i1: usize, i2: usize) -> bool {
        i2 == i1 && i1 < ne_seq(self).len()
    }

    open spec fn nothing_rel(x: M, y: M) -> bool {
        y == x
    }

    open spec fn all_idces_post(&self, pairs: Seq<(usize, usize)>) -> bool {
        pairs == Seq::new(ne_seq(self).len(), |k: int| (k as usize, k as usize))
    }

    fn can_take(&self, index_into: &usize) -> (r: bool) {
        let i = *index_into;
        i == 0 || i - 1 < self.tail.len()
    }

    fn can_put(&self, index_into: &usize) -> (r: bool) {
        let i = *index_into;
        i == 0 || i - 1 < self.tail.len()
    }

    fn take(&mut self, index_into: &usize) -> (r: Result<M, DispatchError>) {
        let i = *index_into;
        if i == 0 {
            let mut d = M::default();
            let ghost dv = d;
            core::mem::swap(&mut d, &mut self.head);
            proof {
                assert(ne_seq(self) =~= ne_seq(old(self)).update(0, dv));
            }
            Ok(d)
        } else if i - 1 < self.tail.len() {
            let r = <Vec<M> as TakePutBack<usize, usize>>::take(&mut self.tail, &(i - 1));
            proof {
                let item = r->Ok_0;
                let d = choose|d: M|
                    #[trigger] call_ensures(M::default, (), d) && self.tail@ == old(
                        self,
                    ).tail@.update(i - 1 as int, d);
                assert(ne_seq(self) =~= ne_seq(old(self)).update(i as int, d));
                assert(ne_seq(old(self))[i as int] == old(self).tail@[i - 1 as int]);
            }
            r
        } else {
            Err(DispatchError::IndexNotFound)
        }
    }

    fn put_back(&mut self, index_into: &usize, reinsert: M) -> (r: Result<(), DispatchError>) {
        let i = *index_into;
        if i == 0 {
            self.head = reinsert;
            proof {
                assert(ne_seq(self) =~= ne_seq(old(self)).update(0, ne_seq(self)[0]));
            }
            Ok(())
        } else if i - 1 < self.tail.len() {
            self.tail[i - 1] = reinsert;
            proof {
                assert(ne_seq(self) =~= ne_seq(old(self)).update(i as int, ne_seq(self)[i as int]));
            }
            Ok(())
        } else {
            Err(DispatchError::IndexNotFound)
        }
    }

    #[verifier::loop_isolation(false)]
    fn all_idces_inout(&self) -> (r: Vec<(usize, usize)>) {
        let mut r: Vec<(usize, usize)> = Vec::new();
        r.push((0, 0));
        let mut k: usize = 0;
        while k < self.tail.len()
            invariant
                k <= self.tail@.len(),
                r@ =~= Seq::new((k + 1) as nat, |j: int| (j as usize, j as usize)),
            decreases self.tail@.len() - k,
        {
            r.push((k + 1, k + 1));
            k += 1;
            proof {
                assert(r@ =~= Seq::new((k + 1) as nat, |j: int| (j as usize, j as usize)));
            }
        }
        proof {
            assert(r@ =~= Seq::new(ne_seq(self).len(), |j: int| (j as usize, j as usize)));
        }
        r
    }

    fn do_nothing_process(item: M) -> (r: M) {
        item
    }

    proof fn law_take_preserves_valid(&self, i: usize, post: &Self, item: &M, j: usize) {
    }

    proof fn law_put_target(&self, i: usize, v: M) {
    }

    proof fn law_nothing_valid(&self, i1: usize, i2: usize, mid: &Self, item: &M, y: M) {
    }

    proof fn law_nothing_restores(
        &self,
        i1: usize,
        i2: usize,
        mid: &Self,
        item: &M,
        y: M,
        post: &Self,
    ) {
        assert(ne_seq(post) =~= ne_seq(self));
    }
}

/// No two work items extract from the same position.
pub open spec fn firsts_distinct(pairs: Seq<(usize, usize)>) -> bool {
    forall|a: int, b: int| 0 <= a < b < pairs.len() ==> pairs[a].0 != pairs[b].0
}

/// Position `j` is extracted by some work item.
pub open spec fn idx_taken(pairs: Seq<(usize, usize)>, j: int) -> bool {
    exists|k: int| 0 <= k < pairs.len() && pairs[k].0 == j
}

/// Every work item pairs a position with itself, in bounds, and no two
/// work items alias.
pub open spec fn self_pairs_for(pairs: Seq<(usize, usize)>, len: nat) -> bool {
    &&& forall|k: int|
        0 <= k < pairs.len() ==> (#[trigger] pairs[k]).1 == pairs[k].0 && pairs[k].0 < len
    &&& firsts_distinct(pairs)
}

proof fn lemma_vec_takes_identity<M: Default>(
    s0: Vec<M>,
    pairs: Seq<(usize, usize)>,
    mid: Vec<M>,
    items: Seq<M>,
)
    requires
        takes_rel(s0, pairs, mid, items),
        self_pairs_for(pairs, s0@.len()),
    ensures
        mid@.len() == s0@.len(),
        items.len() == pairs.len(),
        forall|k: int| 0 <= k < pairs.len() ==> items[k] == s0@[(#[trigger] pairs[k]).0 as int],
        forall|j: int| 0 <= j < s0@.len() && !idx_taken(pairs, j) ==> mid@[j] == s0@[j],
    decreases pairs.len(),
{
    if pairs.len() == 0 {
    } else {
        let m1 = choose|m1: Vec<M>|
            #[trigger] s0.take_post(pairs[0].0, &m1, &items[0]) && takes_rel(
                m1,
                pairs.drop_first(),
                mid,
                items.drop_first(),
            );
        let i0 = pairs[0].0;
        let d = choose|d: M|
            #[trigger] call_ensures(M::default, (), d) && m1@ == s0@.update(i0 as int, d);
        assert(self_pairs_for(pairs.drop_first(), m1@.len())) by {
            assert(forall|k: int|
                0 <= k < pairs.drop_first().len() ==> pairs.drop_first()[k] == pairs[k + 1]);
        }
        lemma_vec_takes_identity(m1, pairs.drop_first(), mid, items.drop_first());
        assert forall|k: int| #![trigger pairs[k]] 0 <= k < pairs.len() implies items[k]
            == s0@[pairs[k].0 as int] by {
            if k > 0 {
                assert(pairs.drop_first()[k - 1] == pairs[k]);
                assert(items.drop_first()[k - 1] == items[k]);
                assert(pairs[k].0 != i0);
                assert(m1@[pairs[k].0 as int] == s0@[pairs[k].0 as int]);
            }
        }
        assert forall|j: int| 0 <= j < s0@.len() && !idx_taken(pairs, j) implies mid@[j]
            == s0@[j] by {
            assert(pairs[0].0 != j);
            assert(!idx_taken(pairs.drop_first(), j)) by {
                if idx_taken(pairs.drop_first(), j) {
                    let k = choose|k: int|
                        0 <= k < pairs.drop_first().len() && pairs.drop_first()[k].0 == j;
                    assert(pairs[k + 1].0 == j);
                }
            }
            assert(m1@[j] == s0@[j]);
        }
    }
}

proof fn lemma_vec_puts_identity<M: Default>(
    base: Seq<M>,
    mid: Vec<M>,
    pairs: Seq<(usize, usize)>,
    results: Seq<M>,
    s1: Vec<M>,
    r: Result<(), DispatchError>,
)
    requires
        puts_run(mid, pairs, results, s1, r),
        mid@.len() == base.len(),
        self_pairs_for(pairs, base.len()),
        results.len() == pairs.len(),
        forall|k: int| 0 <= k < pairs.len() ==> results[k] == base[(#[trigger] pairs[k]).0 as int],
        forall|j: int| 0 <= j < base.len() && !idx_taken(pairs, j) ==> mid@[j] == base[j],
    ensures
        r is Ok,
        s1@ == base,
    decreases pairs.len(),
{
    if pairs.len() == 0 {
        assert forall|j: int| 0 <= j < base.len() implies s1@[j] == base[j] by {
            assert(!idx_taken(pairs, j));
        }
        assert(s1@ =~= base);
    } else {
        let i0 = pairs[0].0;
        assert(mid.valid_put(pairs[0].1, results[0]));
        let m2 = choose|m2: Vec<M>|
            #[trigger] mid.put_post(pairs[0].1, results[0], &m2) && puts_run(
                m2,
                pairs.drop_first(),
                results.drop_first(),
                s1,
                r,
            );
        assert(m2@ == mid@.update(i0 as int, base[i0 as int]));
        assert(self_pairs_for(pairs.drop_first(), base.len())) by {
            assert(forall|k: int|
                0 <= k < pairs.drop_first().len() ==> pairs.drop_first()[k] == pairs[k + 1]);
        }
        assert forall|j: int|
            0 <= j < base.len() && !idx_taken(pairs.drop_first(), j) implies m2@[j]
            == base[j] by {
            if j == i0 {
            } else {
                assert(!idx_taken(pairs, j)) by {
                    if idx_taken(pairs, j) {
                        let k = choose|k: int| 0 <= k < pairs.len() && pairs[k].0 == j;
                        assert(k > 0);
                        assert(pairs.drop_first()[k - 1].0 == j);
                    }
                }
            }
        }
        assert(forall|k: int|
            0 <= k < pairs.drop_first().len() ==> results.drop_first()[k]
                == base[(#[trigger] pairs.drop_first()[k]).0 as int]) by {
            assert(forall|k: int|
                0 <= k < pairs.drop_first().len() ==> pairs.drop_first()[k] == pairs[k + 1]
                    && results.drop_first()[k] == results[k + 1]);
        }
        lemma_vec_puts_identity(base, m2, pairs.drop_first(), results.drop_first(), s1, r);
    }
}

proof fn lemma_vec_chunk_identity<M: Default, F: Fn(M) -> M>(
    s0: Vec<M>,
    pairs: Seq<(usize, usize)>,
    f: F,
    s1: Vec<M>,
    r: Result<(), DispatchError>,
)
    requires
        chunk_rel(s0, pairs, f, s1, r),
        self_pairs_for(pairs, s0@.len()),
        identity_fn(f),
    ensures
        r is Ok,
        s1@ == s0@,
{
    assert(forall|k: int| 0 <= k < pairs.len() ==> s0.valid_take((#[trigger] pairs[k]).0));
    let (mid, items, results) = choose|mid: Vec<M>, items: Seq<M>, results: Seq<M>|
        #![trigger takes_rel(s0, pairs, mid, items), results_rel(f, items, results)]
        {
            &&& takes_rel(s0, pairs, mid, items)
            &&& results_rel(f, items, results)
            &&& puts_run(mid, pairs, results, s1, r)
        };
    lemma_vec_takes_identity(s0, pairs, mid, items);
    assert forall|k: int| #![trigger pairs[k]] 0 <= k < pairs.len() implies results[k]
        == s0@[pairs[k].0 as int] by {
        assert(call_ensures(f, (items[k],), results[k]));
        assert(results[k] == items[k]);
        assert(items[k] == s0@[pairs[k].0 as int]);
    }
    lemma_vec_puts_identity(s0@, mid, pairs, results, s1, r);
}

proof fn lemma_vec_chunked_identity<M: Default, F: Fn(M) -> M>(
    s0: Vec<M>,
    pairs: Seq<(usize, usize)>,
    f: F,
    p: nat,
    s1: Vec<M>,
    r: Result<(), DispatchError>,
)
    requires
        p >= 1,
        dispatch_chunks_rel(s0, chunks_of(pairs, p), f, s1, r),
        self_pairs_for(pairs, s0@.len()),
        identity_fn(f),
    ensures
        r is Ok,
        s1@ == s0@,
    decreases pairs.len(),
{
    if pairs.len() == 0 {
        assert(chunks_of(pairs, p) == Seq::<Seq<(usize, usize)>>::empty());
    } else {
        let chunks = chunks_of(pairs, p);
        let first = if pairs.len() <= p {
            pairs
        } else {
            pairs.take(p as int)
        };
        assert(chunks[0] == first);
        let (mid0, r1) = choose|mid0: Vec<M>, r1: Result<(), DispatchError>|
            #![trigger chunk_rel(s0, chunks[0], f, mid0, r1)]
            {
                &&& chunk_rel(s0, chunks[0], f, mid0, r1)
                &&& if r1 is Err {
                    s1 == mid0 && r == r1
                } else {
                    dispatch_chunks_rel(mid0, chunks.drop_first(), f, s1, r)
                }
            };
        assert(self_pairs_for(first, s0@.len())) by {
            if pairs.len() > p {
                assert(forall|k: int| 0 <= k < first.len() ==> first[k] == pairs[k]);
            }
        }
        lemma_vec_chunk_identity(s0, first, f, mid0, r1);
        if pairs.len() <= p {
            assert(chunks.drop_first() =~= Seq::<Seq<(usize, usize)>>::empty());
            assert(s1 == mid0);
        } else {
            let rest = pairs.skip(p as int);
            assert(chunks.drop_first() =~= chunks_of(rest, p));
            assert(self_pairs_for(rest, mid0@.len())) by {
                assert(forall|k: int| 0 <= k < rest.len() ==> rest[k] == pairs[k + p]);
            }
            lemma_vec_chunked_identity(mid0, rest, f, p, s1, r);
        }
    }
}

/// Identity law for the plain-sequence adapter: dispatching the canonical
/// correspondence list through a processor that can only hand each item
/// back leaves the sequence observably unchanged, and succeeds.
pub proof fn lemma_vec_dispatch_identity<M: Default, F: Fn(M) -> M>(
    s0: Vec<M>,
    pairs: Seq<(usize, usize)>,
    f: F,
    p: nat,
    s1: Vec<M>,
    r: Result<(), DispatchError>,
)
    requires
        s0.all_idces_post(pairs),
        identity_fn(f),
        dispatch_rel(s0, pairs, f, p, s1, r),
    ensures
        r is Ok,
        s1.obs_eq(&s0),
{
    assert(self_pairs_for(pairs, s0@.len())) by {
        assert(s0@.len() <= usize::MAX) by {
            assert(s0@.len() == vstd::std_specs::vec::spec_vec_len(&s0));
        }
        assert(forall|k: int|
            0 <= k < pairs.len() ==> #[trigger] pairs[k] == (k as usize, k as usize));
        assert forall|a: int, b: int| 0 <= a < b < pairs.len() implies pairs[a].0 != pairs[b].0 by {
            assert(pairs[a] == (a as usize, a as usize));
            assert(pairs[b] == (b as usize, b as usize));
        }
    }
    lemma_vec_chunked_identity(s0, pairs, f, p, s1, r);
}

proof fn lemma_ne_takes_identity<M: Default>(
    s0: nonempty::NonEmpty<M>,
    pairs: Seq<(usize, usize)>,
    mid: nonempty::NonEmpty<M>,
    items: Seq<M>,
)
    requires
        takes_rel(s0, pairs, mid, items),
        self_pairs_for(pairs, ne_seq(&s0).len()),
    ensures
        ne_seq(&mid).len() == ne_seq(&s0).len(),
        items.len() == pairs.len(),
        forall|k: int|
            0 <= k < pairs.len() ==> items[k] == ne_seq(&s0)[(#[trigger] pairs[k]).0 as int],
        forall|j: int|
            0 <= j < ne_seq(&s0).len() && !idx_taken(pairs, j) ==> ne_seq(&mid)[j] == ne_seq(
                &s0,
            )[j],
    decreases pairs.len(),
{
    if pairs.len() == 0 {
    } else {
        let m1 = choose|m1: nonempty::NonEmpty<M>|
            #[trigger] s0.take_post(pairs[0].0, &m1, &items[0]) && takes_rel(
                m1,
                pairs.drop_first(),
                mid,
                items.drop_first(),
            );
        let i0 = pairs[0].0;
        let d = choose|d: M|
            #[trigger] call_ensures(M::default, (), d) && ne_seq(&m1) == ne_seq(&s0).update(
                i0 as int,
                d,
            );
        assert(self_pairs_for(pairs.drop_first(), ne_seq(&m1).len())) by {
            assert(forall|k: int|
                0 <= k < pairs.drop_first().len() ==> pairs.drop_first()[k] == pairs[k + 1]);
        }
        lemma_ne_takes_identity(m1, pairs.drop_first(), mid, items.drop_first());
        assert forall|k: int| #![trigger pairs[k]] 0 <= k < pairs.len() implies items[k]
            == ne_seq(&s0)[pairs[k].0 as int] by {
            if k > 0 {
                assert(pairs.drop_first()[k - 1] == pairs[k]);
                assert(items.drop_first()[k - 1] == items[k]);
                assert(pairs[k].0 != i0);
                assert(ne_seq(&m1)[pairs[k].0 as int] == ne_seq(&s0)[pairs[k].0 as int]);
            }
        }
        assert forall|j: int| 0 <= j < ne_seq(&s0).len() && !idx_taken(pairs, j) implies ne_seq(
            &mid,
        )[j] == ne_seq(&s0)[j] by {
            assert(pairs[0].0 != j);
            assert(!idx_taken(pairs.drop_first(), j)) by {
                if idx_taken(pairs.drop_first(), j) {
                    let k = choose|k: int|
                        0 <= k < pairs.drop_first().len() && pairs.drop_first()[k].0 == j;
                    assert(pairs[k + 1].0 == j);
                }
            }
            assert(ne_seq(&m1)[j] == ne_seq(&s0)[j]);
        }
    }
}

proof fn lemma_ne_puts_identity<M: Default>(
    base: Seq<M>,
    mid: nonempty::NonEmpty<M>,
    pairs: Seq<(usize, usize)>,
    results: Seq<M>,
    s1: nonempty::NonEmpty<M>,
    r: Result<(), DispatchError>,
)
    requires
        puts_run(mid, pairs, results, s1, r),
        ne_seq(&mid).len() == base.len(),
        self_pairs_for(pairs, base.len()),
        results.len() == pairs.len(),
        forall|k: int| 0 <= k < pairs.len() ==> results[k] == base[(#[trigger] pairs[k]).0 as int],
        forall|j: int| 0 <= j < base.len() && !idx_taken(pairs, j) ==> ne_seq(&mid)[j] == base[j],
    ensures
        r is Ok,
        ne_seq(&s1) == base,
    decreases pairs.len(),
{
    if pairs.len() == 0 {
        assert forall|j: int| 0 <= j < base.len() implies ne_seq(&s1)[j] == base[j] by {
            assert(!idx_taken(pairs, j));
        }
        assert(ne_seq(&s1) =~= base);
    } else {
        let i0 = pairs[0].0;
        assert(mid.valid_put(pairs[0].1, results[0]));
        let m2 = choose|m2: nonempty::NonEmpty<M>|
            #[trigger] mid.put_post(pairs[0].1, results[0], &m2) && puts_run(
                m2,
                pairs.drop_first(),
                results.drop_first(),
                s1,
                r,
            );
        assert(ne_seq(&m2) == ne_seq(&mid).update(i0 as int, base[i0 as int]));
        assert(self_pairs_for(pairs.drop_first(), base.len())) by {
            assert(forall|k: int|
                0 <= k < pairs.drop_first().len() ==> pairs.drop_first()[k] == pairs[k + 1]);
        }
        assert forall|j: int|
            0 <= j < base.len() && !idx_taken(pairs.drop_first(), j) implies ne_seq(&m2)[j]
            == base[j] by {
            if j == i0 {
            } else {
                assert(!idx_taken(pairs, j)) by {
                    if idx_taken(pairs, j) {
                        let k = choose|k: int| 0 <= k < pairs.len() && pairs[k].0 == j;
                        assert(k > 0);
                        assert(pairs.drop_first()[k - 1].0 == j);
                    }
                }
            }
        }
        assert(forall|k: int|
            0 <= k < pairs.drop_first().len() ==> results.drop_first()[k]
                == base[(#[trigger] pairs.drop_first()[k]).0 as int]) by {
            assert(forall|k: int|
                0 <= k < pairs.drop_first().len() ==> pairs.drop_first()[k] == pairs[k + 1]
                    && results.drop_first()[k] == results[k + 1]);
        }
        lemma_ne_puts_identity(base, m2, pairs.drop_first(), results.drop_first(), s1, r);
    }
}

proof fn lemma_ne_chunk_identity<M: Default, F: Fn(M) -> M>(
    s0: nonempty::NonEmpty<M>,
    pairs: Seq<(usize, usize)>,
    f: F,
    s1: nonempty::NonEmpty<M>,
    r: Result<(), DispatchError>,
)
    requires
        chunk_rel(s0, pairs, f, s1, r),
        self_pairs_for(pairs, ne_seq(&s0).len()),
        identity_fn(f),
    ensures
        r is Ok,
        ne_seq(&s1) == ne_seq(&s0),
{
    assert(forall|k: int| 0 <= k < pairs.len() ==> s0.valid_take((#[trigger] pairs[k]).0));
    let (mid, items, results) = choose|
        mid: nonempty::NonEmpty<M>,
        items: Seq<M>,
        results: Seq<M>,
    |
        #![trigger takes_rel(s0, pairs, mid, items), results_rel(f, items, results)]
        {
            &&& takes_rel(s0, pairs, mid, items)
            &&& results_rel(f, items, results)
            &&& puts_run(mid, pairs, results, s1, r)
        };
    lemma_ne_takes_identity(s0, pairs, mid, items);
    assert forall|k: int| #![trigger pairs[k]] 0 <= k < pairs.len() implies results[k]
        == ne_seq(&s0)[pairs[k].0 as int] by {
        assert(call_ensures(f, (items[k],), results[k]));
        assert(results[k] == items[k]);
        assert(items[k] == ne_seq(&s0)[pairs[k].0 as int]);
    }
    lemma_ne_puts_identity(ne_seq(&s0), mid, pairs, results, s1, r);
}

proof fn lemma_ne_chunked_identity<M: Default, F: Fn(M) -> M>(
    s0: nonempty::NonEmpty<M>,
    pairs: Seq<(usize, usize)>,
    f: F,
    p: nat,
    s1: nonempty::NonEmpty<M>,
    r: Result<(), DispatchError>,
)
    requires
        p >= 1,
        dispatch_chunks_rel(s0, chunks_of(pairs, p), f, s1, r),
        self_pairs_for(pairs, ne_seq(&s0).len()),
        identity_fn(f),
    ensures
        r is Ok,
        ne_seq(&s1) == ne_seq(&s0),
    decreases pairs.len(),
{
    if pairs.len() == 0 {
        assert(chunks_of(pairs, p) == Seq::<Seq<(usize, usize)>>::empty());
    } else {
        let chunks = chunks_of(pairs, p);
        let first = if pairs.len() <= p {
            pairs
        } else {
            pairs.take(p as int)
        };
        assert(chunks[0] == first);
        let (mid0, r1) = choose|mid0: nonempty::NonEmpty<M>, r1: Result<(), DispatchError>|
            #![trigger chunk_rel(s0, chunks[0], f, mid0, r1)]
            {
                &&& chunk_rel(s0, chunks[0], f, mid0, r1)
                &&& if r1 is Err {
                    s1 == mid0 && r == r1
                } else {
                    dispatch_chunks_rel(mid0, chunks.drop_first(), f, s1, r)
                }
            };
        assert(self_pairs_for(first, ne_seq(&s0).len())) by {
            if pairs.len() > p {
                assert(forall|k: int| 0 <= k < first.len() ==> first[k] == pairs[k]);
            }
        }
        lemma_ne_chunk_identity(s0, first, f, mid0, r1);
        if pairs.len() <= p {
            assert(chunks.drop_first() =~= Seq::<Seq<(usize, usize)>>::empty());
            assert(s1 == mid0);
        } else {
            let rest = pairs.skip(p as int);
            assert(chunks.drop_first() =~= chunks_of(rest, p));
            assert(self_pairs_for(rest, ne_seq(&mid0).len())) by {
                assert(forall|k: int| 0 <= k < rest.len() ==> rest[k] == pairs[k + p]);
            }
            lemma_ne_chunked_identity(mid0, rest, f, p, s1, r);
        }
    }
}

/// Identity law for the non-empty-sequence adapter: dispatching the
/// canonical correspondence list through a processor that can only hand
/// each item back leaves the list observably unchanged, and succeeds.
pub proof fn lemma_nonempty_dispatch_identity<M: Default, F: Fn(M) -> M>(
    s0: nonempty::NonEmpty<M>,
    pairs: Seq<(usize, usize)>,
    f: F,
    p: nat,
    s1: nonempty::NonEmpty<M>,
    r: Result<(), DispatchError>,
)
    requires
        s0.all_idces_post(pairs),
        identity_fn(f),
        dispatch_rel(s0, pairs, f, p, s1, r),
    ensures
        r is Ok,
        s1.obs_eq(&s0),
{
    assert(self_pairs_for(pairs, ne_seq(&s0).len())) by {
        assert(ne_seq(&s0).len() <= usize::MAX + 1) by {
            assert(s0.tail@.len() == vstd::std_specs::vec::spec_vec_len(&s0.tail));
        }
        assert(forall|k: int|
            0 <= k < pairs.len() ==> #[trigger] pairs[k] == (k as usize, k as usize));
        assert forall|a: int, b: int| 0 <= a < b < pairs.len() implies pairs[a].0 != pairs[b].0 by {
            assert(pairs[a] == (a as usize, a as usize));
            assert(pairs[b] == (b as usize, b as usize));
        }
    }
    lemma_ne_chunked_identity(s0, pairs, f, p, s1, r);
}

} // verus!
