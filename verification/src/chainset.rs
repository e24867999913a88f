use vstd::prelude::*;

use crate::graph::{lemma_seq_has_index, seq_has, vec_contains, vec_remove_value};

verus! {

/// Membership across a chain of cohorts.
pub open spec fn chain_has(data: Seq<Seq<usize>>, x: int) -> bool {
    exists|c: int| 0 <= c < data.len() && seq_has(#[trigger] data[c], x)
}

/// Total number of entries over all cohorts.
pub open spec fn chain_len(data: Seq<Seq<usize>>) -> int
    decreases data.len(),
{
    if data.len() == 0 {
        0
    } else {
        chain_len(data.drop_last()) + data.last().len()
    }
}

pub proof fn lemma_chain_len_nonneg(data: Seq<Seq<usize>>)
    ensures
        chain_len(data) >= 0,
    decreases data.len(),
{
    if data.len() > 0 {
        lemma_chain_len_nonneg(data.drop_last());
    }
}

pub proof fn lemma_chain_len_prefix(data: Seq<Seq<usize>>, i: int)
    requires
        0 <= i <= data.len(),
    ensures
        chain_len(data.take(i)) <= chain_len(data),
        chain_len(data.take(i)) >= 0,
    decreases data.len() - i,
{
    lemma_chain_len_nonneg(data.take(i));
    if i < data.len() {
        lemma_chain_len_prefix(data, i + 1);
        assert(data.take(i + 1).drop_last() =~= data.take(i));
        assert(data.take(i + 1).last() == data[i]);
    } else {
        assert(data.take(i) =~= data);
    }
}

pub proof fn lemma_chain_len_update(data: Seq<Seq<usize>>, i: int, s: Seq<usize>)
    requires
        0 <= i < data.len(),
    ensures
        chain_len(data.update(i, s)) == chain_len(data) - data[i].len() + s.len(),
    decreases data.len(),
{
    if i == data.len() - 1 {
        assert(data.update(i, s).drop_last() =~= data.drop_last());
        assert(data.update(i, s).last() == s);
    } else {
        lemma_chain_len_update(data.drop_last(), i, s);
        assert(data.update(i, s).drop_last() =~= data.drop_last().update(i, s));
        assert(data.update(i, s).last() == data.last());
    }
}

pub proof fn lemma_chain_len_push(data: Seq<Seq<usize>>, s: Seq<usize>)
    ensures
        chain_len(data.push(s)) == chain_len(data) + s.len(),
{
    assert(data.push(s).drop_last() =~= data);
    assert(data.push(s).last() == s);
}

pub proof fn lemma_chain_len_drop_first(data: Seq<Seq<usize>>)
    requires
        data.len() > 0,
    ensures
        chain_len(data.drop_first()) == chain_len(data) - data[0].len(),
    decreases data.len(),
{
    if data.len() == 1 {
        assert(data.drop_first() =~= Seq::<Seq<usize>>::empty());
        assert(data.drop_last() =~= Seq::<Seq<usize>>::empty());
        assert(data.last() == data[0]);
    } else {
        lemma_chain_len_drop_first(data.drop_last());
        assert(data.drop_last().drop_first() =~= data.drop_first().drop_last());
        assert(data.drop_first().last() == data.last());
        assert(data.drop_last()[0] == data[0]);
    }
}

/// Membership after pushing a new cohort.
pub proof fn lemma_chain_push(data: Seq<Seq<usize>>, s: Seq<usize>)
    ensures
        forall|x: int| chain_has(#[trigger] data.push(s), x) <==> (chain_has(data, x) || seq_has(
            s,
            x,
        )),
{
    assert forall|x: int| chain_has(#[trigger] data.push(s), x) implies (chain_has(data, x)
        || seq_has(s, x)) by {
        let c = choose|c: int| 0 <= c < data.push(s).len() && seq_has(data.push(s)[c], x);
        if c < data.len() {
            assert(seq_has(data[c], x));
        } else {
            assert(data.push(s)[c] == s);
        }
    }
    assert forall|x: int| (chain_has(data, x) || seq_has(s, x)) implies chain_has(
        #[trigger] data.push(s),
        x,
    ) by {
        if chain_has(data, x) {
            let c = choose|c: int| 0 <= c < data.len() && seq_has(data[c], x);
            assert(data.push(s)[c] == data[c]);
            assert(seq_has(data.push(s)[c], x));
        } else {
            assert(data.push(s)[data.len() as int] == s);
            assert(seq_has(data.push(s)[data.len() as int], x));
        }
    }
}

/// Membership after replacing one cohort.
pub proof fn lemma_chain_update(data: Seq<Seq<usize>>, i: int, s: Seq<usize>)
    requires
        0 <= i < data.len(),
    ensures
        forall|x: int| #[trigger] chain_has(data.update(i, s), x) <==> ((exists|c: int|
            0 <= c < data.len() && c != i && seq_has(#[trigger] data[c], x)) || seq_has(s, x)),
{
    assert forall|x: int|
        #[trigger] chain_has(data.update(i, s), x) <==> ((exists|c: int|
            0 <= c < data.len() && c != i && seq_has(#[trigger] data[c], x)) || seq_has(
            s,
            x,
        )) by {
        if chain_has(data.update(i, s), x) {
            let c = choose|c: int|
                0 <= c < data.update(i, s).len() && seq_has(data.update(i, s)[c], x);
            if c == i {
                assert(seq_has(s, x));
            } else {
                assert(seq_has(data[c], x));
            }
        }
        if exists|c: int| 0 <= c < data.len() && c != i && seq_has(#[trigger] data[c], x) {
            let c = choose|c: int| 0 <= c < data.len() && c != i && seq_has(#[trigger] data[c], x);
            assert(seq_has(data.update(i, s)[c], x));
            assert(chain_has(data.update(i, s), x));
        }
        if seq_has(s, x) {
            assert(seq_has(data.update(i, s)[i], x));
            assert(chain_has(data.update(i, s), x));
        }
    }
}

/// Membership after expiring the oldest cohort.
pub proof fn lemma_chain_drop_first(data: Seq<Seq<usize>>)
    requires
        data.len() > 0,
    ensures
        forall|x: int|
            chain_has(#[trigger] data.drop_first(), x) <==> (exists|c: int|
                1 <= c < data.len() && seq_has(#[trigger] data[c], x)),
{
    assert forall|x: int| chain_has(#[trigger] data.drop_first(), x) implies (exists|c: int|
        1 <= c < data.len() && seq_has(#[trigger] data[c], x)) by {
        let c = choose|c: int|
            0 <= c < data.drop_first().len() && seq_has(data.drop_first()[c], x);
        assert(data.drop_first()[c] == data[c + 1]);
        assert(seq_has(data[c + 1], x));
    }
    assert forall|x: int| (exists|c: int| 1 <= c < data.len() && seq_has(#[trigger] data[c], x))
        implies chain_has(#[trigger] data.drop_first(), x) by {
        let c = choose|c: int| 1 <= c < data.len() && seq_has(#[trigger] data[c], x);
        assert(data.drop_first()[c - 1] == data[c]);
        assert(seq_has(data.drop_first()[c - 1], x));
    }
}

/// A chain with its emptied-out front cohorts dropped: the nonempty
/// cohorts survive in order.
pub open spec fn trimmed(data: Seq<Seq<usize>>) -> Seq<Seq<usize>>
    decreases data.len(),
{
    if data.len() == 0 {
        data
    } else if data[0].len() == 0 {
        trimmed(data.drop_first())
    } else {
        data
    }
}

/// Trimming leaves either nothing or a nonempty front cohort.
pub proof fn lemma_trimmed_front(data: Seq<Seq<usize>>)
    ensures
        trimmed(data).len() == 0 || trimmed(data)[0].len() > 0,
    decreases data.len(),
{
    if data.len() > 0 && data[0].len() == 0 {
        lemma_trimmed_front(data.drop_first());
    }
}

/// A deque of duplicate-free, pairwise-disjoint cohorts supporting
/// cohort-wise expiry: insertion targets the newest cohort, expiry
/// drops the oldest, membership is checked across all cohorts.
pub struct ChainSet {
    pub data: Vec<Vec<usize>>,
}

impl ChainSet {
    pub open spec fn cohorts(&self) -> Seq<Seq<usize>> {
        self.data@.map_values(|v: Vec<usize>| v@)
    }

    /// Membership across the whole chain.
    pub open spec fn has(&self, x: int) -> bool {
        chain_has(self.cohorts(), x)
    }

    /// Number of entries over the whole chain.
    pub open spec fn total(&self) -> int {
        chain_len(self.cohorts())
    }

    /// Each cohort duplicate-free and no member in two cohorts.
    pub open spec fn wf(&self) -> bool {
        &&& forall|c: int|
            0 <= c < self.cohorts().len() ==> (#[trigger] self.cohorts()[c]).no_duplicates()
        &&& forall|c1: int, c2: int, x: int|
            0 <= c1 < self.cohorts().len() && 0 <= c2 < self.cohorts().len() && c1 != c2
                && #[trigger] seq_has(self.cohorts()[c1], x) ==> !#[trigger] seq_has(
                self.cohorts()[c2],
                x,
            )
    }

    pub fn new() -> (r: ChainSet)
        ensures
            r.wf(),
            r.total() == 0,
            forall|x: int| !r.has(x),
            r.cohorts().len() == 0,
    {
        let r = ChainSet { data: Vec::new() };
        proof {
            assert(r.cohorts() =~= Seq::<Seq<usize>>::empty());
        }
        r
    }

    /// Opens a new, empty, newest cohort.
    pub fn add_child(&mut self)
        requires
            old(self).wf(),
        ensures
            final(self).wf(),
            final(self).total() == old(self).total(),
            forall|x: int| final(self).has(x) <==> old(self).has(x),
            final(self).cohorts() == old(self).cohorts().push(Seq::<usize>::empty()),
    {
        self.data.push(Vec::new());
        proof {
            let pre = old(self).cohorts();
            assert(self.cohorts() =~= pre.push(Seq::<usize>::empty()));
            lemma_chain_push(pre, Seq::empty());
            lemma_chain_len_push(pre, Seq::empty());
            assert forall|x: int| !seq_has(Seq::<usize>::empty(), x) by {
                if seq_has(Seq::<usize>::empty(), x) {
                    let k = choose|k: int|
                        0 <= k < Seq::<usize>::empty().len() && Seq::<usize>::empty()[k] == x;
                }
            }
        }
    }

    /// Appends a whole cohort of fresh members.
    pub fn push_child(&mut self, s: Vec<usize>)
        requires
            old(self).wf(),
            s@.no_duplicates(),
            forall|x: int| seq_has(s@, x) ==> !old(self).has(x),
        ensures
            final(self).wf(),
            final(self).total() == old(self).total() + s@.len(),
            forall|x: int| final(self).has(x) <==> (old(self).has(x) || seq_has(s@, x)),
            final(self).cohorts() == old(self).cohorts().push(s@),
    {
        let ghost sv = s@;
        self.data.push(s);
        proof {
            let pre = old(self).cohorts();
            assert(self.cohorts() =~= pre.push(sv));
            lemma_chain_push(pre, sv);
            lemma_chain_len_push(pre, sv);
            assert forall|c1: int, c2: int, x: int|
                0 <= c1 < self.cohorts().len() && 0 <= c2 < self.cohorts().len() && c1 != c2
                    && #[trigger] seq_has(self.cohorts()[c1], x) implies !#[trigger] seq_has(
                self.cohorts()[c2],
                x,
            ) by {
                if c1 < pre.len() && c2 < pre.len() {
                    assert(seq_has(pre[c1], x));
                } else if c1 == pre.len() {
                    assert(seq_has(sv, x));
                    assert(!old(self).has(x));
                    assert(seq_has(pre[c2], x) ==> chain_has(pre, x));
                } else {
                    assert(seq_has(pre[c1], x));
                    assert(chain_has(pre, x));
                    assert(!seq_has(sv, x));
                }
            }
        }
    }

    /// Membership over all cohorts.
    pub fn contains(&self, value: usize) -> (b: bool)
        ensures
            b == self.has(value as int),
    {
        let n = self.data.len();
        let mut c: usize = 0;
        while c < n
            invariant
                c <= n,
                n == self.data@.len(),
                forall|k: int| 0 <= k < c ==> !seq_has(self.cohorts()[k], value as int),
            decreases n - c,
        {
            if vec_contains(&self.data[c], value) {
                proof {
                    assert(self.cohorts()[c as int] == self.data@[c as int]@);
                    assert(seq_has(self.cohorts()[c as int], value as int));
                }
                return true;
            }
            proof {
                assert(self.cohorts()[c as int] == self.data@[c as int]@);
            }
            c += 1;
        }
        proof {
            if self.has(value as int) {
                let k = choose|k: int|
                    0 <= k < self.cohorts().len() && seq_has(self.cohorts()[k], value as int);
            }
        }
        false
    }

    /// Inserts into the newest cohort unless already present anywhere;
    /// reports that the value is now held, so always true (a value
    /// already present is left exactly where it sits).
    pub fn insert(&mut self, value: usize) -> (b: bool)
        requires
            old(self).wf(),
        ensures
            final(self).wf(),
            b,
            forall|x: int| final(self).has(x) <==> (old(self).has(x) || x == value),
            final(self).total() == old(self).total() + (if old(self).has(value as int) {
                0int
            } else {
                1int
            }),
            final(self).has(value as int),
            old(self).has(value as int) ==> *final(self) == *old(self),
            !old(self).has(value as int) && old(self).cohorts().len() > 0 ==> final(self).cohorts()
                == old(self).cohorts().update(
                old(self).cohorts().len() - 1,
                old(self).cohorts().last().push(value),
            ),
            !old(self).has(value as int) && old(self).cohorts().len() == 0 ==> final(self).cohorts()
                == seq![seq![value]],
    {
        if self.contains(value) {
            return true;
        }
        if self.data.len() == 0 {
            self.add_child();
        }
        let ghost mid = *self;
        let last = self.data.len() - 1;
        proof {
            assert(mid.cohorts()[last as int].no_duplicates());
            assert(!seq_has(mid.cohorts()[last as int], value as int)) by {
                if seq_has(mid.cohorts()[last as int], value as int) {
                    assert(chain_has(mid.cohorts(), value as int));
                }
            }
        }
        self.data[last].push(value);
        proof {
            let pre = mid.cohorts();
            let s = pre[last as int].push(value);
            assert(self.cohorts() =~= pre.update(last as int, s));
            lemma_chain_update(pre, last as int, s);
            lemma_chain_len_update(pre, last as int, s);
            crate::graph::lemma_push_has(pre[last as int], value);
            assert forall|x: int| final(self).has(x) implies (mid.has(x) || x == value) by {
                if exists|c: int| 0 <= c < pre.len() && c != last && seq_has(#[trigger] pre[c], x) {
                    let c = choose|c: int|
                        0 <= c < pre.len() && c != last && seq_has(#[trigger] pre[c], x);
                    assert(chain_has(pre, x));
                } else {
                    assert(seq_has(s, x));
                    if x != value {
                        assert(seq_has(pre[last as int], x));
                        assert(chain_has(pre, x));
                    }
                }
            }
            assert forall|x: int| (mid.has(x) || x == value) implies final(self).has(x) by {
                if mid.has(x) {
                    let c = choose|c: int| 0 <= c < pre.len() && seq_has(#[trigger] pre[c], x);
                    if c == last {
                        assert(seq_has(s, x));
                    }
                } else {
                    assert(seq_has(s, x));
                }
            }
            assert forall|c1: int, c2: int, x: int|
                0 <= c1 < self.cohorts().len() && 0 <= c2 < self.cohorts().len() && c1 != c2
                    && #[trigger] seq_has(self.cohorts()[c1], x) implies !#[trigger] seq_has(
                self.cohorts()[c2],
                x,
            ) by {
                if c1 == last {
                    if x == value {
                        if seq_has(pre[c2], x) {
                            assert(chain_has(pre, x));
                        }
                    } else {
                        assert(seq_has(pre[c1], x));
                    }
                } else {
                    assert(seq_has(pre[c1], x));
                    if c2 == last {
                        if seq_has(self.cohorts()[c2], x) {
                            assert(x != value ==> seq_has(pre[c2], x));
                            assert(x == value ==> chain_has(pre, x));
                        }
                    }
                }
            }
            assert forall|c: int|
                0 <= c < self.cohorts().len() implies (#[trigger] self.cohorts()[
            c]).no_duplicates() by {
                if c != last {
                    assert(self.cohorts()[c] == pre[c]);
                }
            }
        }
        true
    }

    /// Removes `value` wherever it sits; returns whether it was found.
    pub fn remove(&mut self, value: usize) -> (b: bool)
        requires
            old(self).wf(),
        ensures
            final(self).wf(),
            b == old(self).has(value as int),
            !final(self).has(value as int),
            forall|x: int| x != value ==> (final(self).has(x) <==> old(self).has(x)),
            final(self).total() == old(self).total() - (if old(self).has(value as int) {
                1int
            } else {
                0int
            }),
            final(self).cohorts().len() == old(self).cohorts().len(),
            !old(self).has(value as int) ==> *final(self) == *old(self),
    {
        let n = self.data.len();
        let mut c: usize = 0;
        while c < n
            invariant
                c <= n,
                n == self.data@.len(),
                *self == *old(self),
                old(self).wf(),
                forall|k: int| 0 <= k < c ==> !seq_has(self.cohorts()[k], value as int),
            decreases n - c,
        {
            proof {
                assert(self.cohorts()[c as int] == self.data@[c as int]@);
            }
            if vec_contains(&self.data[c], value) {
                let ghost pre = self.cohorts();
                proof {
                    assert(pre[c as int].no_duplicates());
                }
                vec_remove_value(&mut self.data[c], value);
                proof {
                    let s = self.data@[c as int]@;
                    assert(self.cohorts() =~= pre.update(c as int, s));
                    lemma_chain_update(pre, c as int, s);
                    lemma_chain_len_update(pre, c as int, s);
                    assert(s.len() == pre[c as int].len() - 1);
                    assert(chain_has(pre, value as int));
                    assert forall|x: int| x != value implies (final(self).has(x) <==> old(
                        self,
                    ).has(x)) by {
                        if old(self).has(x) {
                            let k = choose|k: int|
                                0 <= k < pre.len() && seq_has(#[trigger] pre[k], x);
                            if k == c {
                                assert(seq_has(s, x));
                            }
                        }
                        if final(self).has(x) {
                            if exists|k: int|
                                0 <= k < pre.len() && k != c && seq_has(#[trigger] pre[k], x) {
                                let k = choose|k: int|
                                    0 <= k < pre.len() && k != c && seq_has(#[trigger] pre[k], x);
                                assert(chain_has(pre, x));
                            } else {
                                assert(seq_has(s, x));
                                assert(seq_has(pre[c as int], x));
                                assert(chain_has(pre, x));
                            }
                        }
                    }
                    assert(!final(self).has(value as int)) by {
                        if final(self).has(value as int) {
                            if exists|k: int|
                                0 <= k < pre.len() && k != c && seq_has(
                                    #[trigger] pre[k],
                                    value as int,
                                ) {
                                let k = choose|k: int|
                                    0 <= k < pre.len() && k != c && seq_has(
                                        #[trigger] pre[k],
                                        value as int,
                                    );
                                assert(seq_has(pre[c as int], value as int));
                                assert(false);
                            } else {
                                assert(seq_has(s, value as int));
                                assert(false);
                            }
                        }
                    }
                    assert forall|c1: int, c2: int, x: int|
                        0 <= c1 < self.cohorts().len() && 0 <= c2 < self.cohorts().len() && c1
                            != c2 && #[trigger] seq_has(self.cohorts()[c1], x) implies
                        !#[trigger] seq_has(self.cohorts()[c2], x) by {
                        if c1 == c {
                            assert(seq_has(s, x));
                            assert(x != value ==> seq_has(pre[c1], x));
                            assert(seq_has(pre[c1], x));
                        } else {
                            assert(seq_has(pre[c1], x));
                            if c2 == c {
                                if seq_has(self.cohorts()[c2], x) {
                                    assert(seq_has(pre[c2], x));
                                    assert(false);
                                }
                            }
                        }
                    }
                    assert forall|k: int|
                        0 <= k < self.cohorts().len() implies (#[trigger] self.cohorts()[
                    k]).no_duplicates() by {
                        if k != c {
                            assert(self.cohorts()[k] == pre[k]);
                        }
                    }
                }
                return true;
            }
            c += 1;
        }
        proof {
            if self.has(value as int) {
                let k = choose|k: int|
                    0 <= k < self.cohorts().len() && seq_has(self.cohorts()[k], value as int);
            }
        }
        false
    }

    /// Saturating count of all entries.
    pub fn len(&self) -> (r: usize)
        ensures
            r == if self.total() <= usize::MAX {
                self.total()
            } else {
                usize::MAX as int
            },
    {
        let n = self.data.len();
        let mut c: usize = 0;
        let mut t: usize = 0;
        proof {
            lemma_chain_len_nonneg(self.cohorts().take(0));
            assert(self.cohorts().take(0) =~= Seq::<Seq<usize>>::empty());
        }
        while c < n
            invariant
                c <= n,
                n == self.data@.len(),
                t == if chain_len(self.cohorts().take(c as int)) <= usize::MAX {
                    chain_len(self.cohorts().take(c as int))
                } else {
                    usize::MAX as int
                },
            decreases n - c,
        {
            proof {
                assert(self.cohorts().take(c as int + 1).drop_last() =~= self.cohorts().take(
                    c as int,
                ));
                assert(self.cohorts().take(c as int + 1).last() == self.cohorts()[c as int]);
                assert(self.cohorts()[c as int] == self.data@[c as int]@);
                lemma_chain_len_nonneg(self.cohorts().take(c as int));
            }
            let l = self.data[c].len();
            if l <= usize::MAX - t {
                t = t + l;
            } else {
                t = usize::MAX;
            }
            c += 1;
        }
        proof {
            assert(self.cohorts().take(n as int) =~= self.cohorts());
        }
        t
    }

    pub fn is_empty(&self) -> (b: bool)
        ensures
            b == (self.total() == 0),
            b ==> forall|x: int| !self.has(x),
    {
        let n = self.data.len();
        let mut c: usize = 0;
        while c < n
            invariant
                c <= n,
                n == self.data@.len(),
                chain_len(self.cohorts().take(c as int)) == 0,
            decreases n - c,
        {
            proof {
                assert(self.cohorts().take(c as int + 1).drop_last() =~= self.cohorts().take(
                    c as int,
                ));
                assert(self.cohorts().take(c as int + 1).last() == self.cohorts()[c as int]);
                assert(self.cohorts()[c as int] == self.data@[c as int]@);
            }
            if self.data[c].len() > 0 {
                proof {
                    lemma_chain_len_prefix(self.cohorts(), c as int + 1);
                    assert(chain_len(self.cohorts()) > 0);
                }
                return false;
            }
            c += 1;
        }
        proof {
            assert(self.cohorts().take(n as int) =~= self.cohorts());
            assert forall|x: int| !self.has(x) by {
                if self.has(x) {
                    let k = choose|k: int|
                        0 <= k < self.cohorts().len() && seq_has(self.cohorts()[k], x);
                    lemma_chain_len_member(self.cohorts(), k);
                    let a = choose|a: int|
                        0 <= a < self.cohorts()[k].len() && self.cohorts()[k][a] == x;
                }
            }
        }
        true
    }

    /// Drops the oldest cohort, members and all (cohort expiry); the
    /// younger cohorts stay as they were.
    pub fn pop_child(&mut self)
        requires
            old(self).wf(),
        ensures
            final(self).wf(),
            forall|x: int| #[trigger] final(self).has(x) ==> old(self).has(x),
            final(self).total() <= old(self).total(),
            old(self).cohorts().len() == 0 ==> *final(self) == *old(self),
            old(self).cohorts().len() > 0 ==> final(self).cohorts() == old(
                self,
            ).cohorts().drop_first(),
    {
        proof {
            lemma_chain_len_nonneg(old(self).cohorts());
        }
        if self.data.len() > 0 {
            self.data.remove(0);
            proof {
                let pre = old(self).cohorts();
                assert(self.cohorts() =~= pre.drop_first());
                lemma_chain_drop_first(pre);
                lemma_chain_len_drop_first(pre);
                assert forall|x: int| #[trigger] final(self).has(x) implies old(self).has(x) by {
                    if final(self).has(x) {
                        let c = choose|c: int| 1 <= c < pre.len() && seq_has(#[trigger] pre[c], x);
                    }
                }
                assert forall|c: int|
                    0 <= c < self.cohorts().len() implies (#[trigger] self.cohorts()[
                c]).no_duplicates() by {
                    assert(self.cohorts()[c] == pre[c + 1]);
                }
                assert forall|c1: int, c2: int, x: int|
                    0 <= c1 < self.cohorts().len() && 0 <= c2 < self.cohorts().len() && c1 != c2
                        && #[trigger] seq_has(self.cohorts()[c1], x) implies !#[trigger] seq_has(
                    self.cohorts()[c2],
                    x,
                ) by {
                    assert(self.cohorts()[c1] == pre[c1 + 1]);
                    assert(self.cohorts()[c2] == pre[c2 + 1]);
                    assert(seq_has(pre[c1 + 1], x));
                }
            }
        }
    }

    /// Takes one member out of the oldest nonempty cohort; cohorts
    /// themselves are left in place.
    pub fn pop_clean(&mut self) -> (r: Option<usize>)
        requires
            old(self).wf(),
        ensures
            final(self).wf(),
            r is None <==> old(self).total() == 0,
            r matches Some(v) ==> old(self).has(v as int) && !final(self).has(v as int)
                && final(self).total() == old(self).total() - 1,
            r matches Some(v) ==> forall|x: int|
                x != v ==> (final(self).has(x) <==> old(self).has(x)),
            r matches Some(v) ==> exists|c: int|
                0 <= c < old(self).cohorts().len() && #[trigger] seq_has(
                    old(self).cohorts()[c],
                    v as int,
                ) && (forall|c2: int| 0 <= c2 < c ==> old(self).cohorts()[c2].len() == 0),
            r is None ==> *final(self) == *old(self),
            final(self).total() <= old(self).total(),
    {
        let n = self.data.len();
        let mut c: usize = 0;
        while c < n
            invariant
                c <= n,
                n == self.data@.len(),
                *self == *old(self),
                old(self).wf(),
                chain_len(self.cohorts().take(c as int)) == 0,
                forall|k: int| 0 <= k < c ==> self.cohorts()[k].len() == 0,
            decreases n - c,
        {
            proof {
                assert(self.cohorts().take(c as int + 1).drop_last() =~= self.cohorts().take(
                    c as int,
                ));
                assert(self.cohorts().take(c as int + 1).last() == self.cohorts()[c as int]);
                assert(self.cohorts()[c as int] == self.data@[c as int]@);
            }
            if self.data[c].len() > 0 {
                let ghost pre = self.cohorts();
                let v = self.data[c].pop().unwrap();
                proof {
                    let s = self.data@[c as int]@;
                    assert(s =~= pre[c as int].drop_last());
                    assert(pre[c as int].last() == v);
                    assert(self.cohorts() =~= pre.update(c as int, s));
                    lemma_chain_update(pre, c as int, s);
                    lemma_chain_len_update(pre, c as int, s);
                    lemma_chain_len_nonneg(self.cohorts());
                    lemma_seq_has_index(pre[c as int], pre[c as int].len() - 1);
                    assert(seq_has(pre[c as int], v as int));
                    assert(chain_has(pre, v as int));
                    assert(!seq_has(s, v as int)) by {
                        if seq_has(s, v as int) {
                            let a = choose|a: int| 0 <= a < s.len() && s[a] == v as int;
                            assert(pre[c as int][a] == v);
                            assert(pre[c as int][pre[c as int].len() - 1] == v);
                            assert(pre[c as int].no_duplicates());
                            assert(false);
                        }
                    }
                    assert(!final(self).has(v as int)) by {
                        if exists|k: int|
                            0 <= k < pre.len() && k != c && seq_has(#[trigger] pre[k], v as int) {
                            let k = choose|k: int|
                                0 <= k < pre.len() && k != c && seq_has(#[trigger] pre[k], v as int);
                            assert(false);
                        }
                    }
                    assert forall|x: int| x != v implies (final(self).has(x) <==> old(self).has(
                        x,
                    )) by {
                        if old(self).has(x) {
                            let k = choose|k: int|
                                0 <= k < pre.len() && seq_has(#[trigger] pre[k], x);
                            if k == c {
                                assert(seq_has(s, x)) by {
                                    let a = choose|a: int|
                                        0 <= a < pre[c as int].len() && pre[c as int][a] == x;
                                    assert(a != pre[c as int].len() - 1);
                                    assert(s[a] == x);
                                }
                            }
                        }
                        if final(self).has(x) {
                            if exists|k: int|
                                0 <= k < pre.len() && k != c && seq_has(#[trigger] pre[k], x) {
                                let k = choose|k: int|
                                    0 <= k < pre.len() && k != c && seq_has(#[trigger] pre[k], x);
                                assert(chain_has(pre, x));
                            } else {
                                assert(seq_has(s, x));
                                assert(seq_has(pre[c as int], x)) by {
                                    let a = choose|a: int| 0 <= a < s.len() && s[a] == x;
                                    assert(pre[c as int][a] == x);
                                }
                                assert(chain_has(pre, x));
                            }
                        }
                    }
                    assert forall|c1: int, c2: int, x: int|
                        0 <= c1 < self.cohorts().len() && 0 <= c2 < self.cohorts().len() && c1
                            != c2 && #[trigger] seq_has(self.cohorts()[c1], x) implies
                        !#[trigger] seq_has(self.cohorts()[c2], x) by {
                        if c1 == c {
                            assert(seq_has(s, x));
                            assert(seq_has(pre[c1], x)) by {
                                let a = choose|a: int| 0 <= a < s.len() && s[a] == x;
                                assert(pre[c as int][a] == x);
                            }
                        } else {
                            assert(seq_has(pre[c1], x));
                            if c2 == c {
                                if seq_has(self.cohorts()[c2], x) {
                                    assert(seq_has(pre[c2], x)) by {
                                        let a = choose|a: int|
                                            0 <= a < s.len() && s[a] == x;
                                        assert(pre[c as int][a] == x);
                                    }
                                    assert(false);
                                }
                            }
                        }
                    }
                    assert forall|k: int|
                        0 <= k < self.cohorts().len() implies (#[trigger] self.cohorts()[
                    k]).no_duplicates() by {
                        if k != c {
                            assert(self.cohorts()[k] == pre[k]);
                        } else {
                            assert(self.cohorts()[k] =~= s);
                            assert forall|a: int, b: int|
                                0 <= a < s.len() && 0 <= b < s.len() && a != b implies s[a]
                                != s[b] by {
                                assert(pre[c as int][a] == s[a]);
                                assert(pre[c as int][b] == s[b]);
                            }
                        }
                    }
                }
                return Some(v);
            }
            c += 1;
        }
        proof {
            assert(self.cohorts().take(n as int) =~= self.cohorts());
        }
        None
    }

    /// Drops emptied-out cohorts at the front; membership and count
    /// are untouched.
    pub fn trim_front(&mut self)
        requires
            old(self).wf(),
        ensures
            final(self).wf(),
            final(self).total() == old(self).total(),
            forall|x: int| final(self).has(x) <==> old(self).has(x),
            final(self).cohorts().len() == 0 || final(self).cohorts()[0].len() > 0,
            final(self).cohorts() == trimmed(old(self).cohorts()),
    {
        while self.data.len() > 0
            invariant
                self.wf(),
                chain_len(self.cohorts()) == old(self).total(),
                forall|x: int| chain_has(self.cohorts(), x) <==> old(self).has(x),
                trimmed(self.cohorts()) == trimmed(old(self).cohorts()),
            decreases self.data@.len(),
        {
            proof {
                assert(self.cohorts()[0] == self.data@[0]@);
            }
            if self.data[0].len() > 0 {
                return ;
            }
            let ghost pre = self.cohorts();
            self.data.remove(0);
            proof {
                assert(self.cohorts() =~= pre.drop_first());
                lemma_chain_drop_first(pre);
                lemma_chain_len_drop_first(pre);
                assert forall|x: int| chain_has(self.cohorts(), x) <==> chain_has(pre, x) by {
                    if chain_has(pre, x) {
                        let c = choose|c: int| 0 <= c < pre.len() && seq_has(#[trigger] pre[c], x);
                        assert(c != 0) by {
                            if c == 0 {
                                let a = choose|a: int| 0 <= a < pre[0].len() && pre[0][a] == x;
                            }
                        }
                    }
                }
                assert forall|c: int|
                    0 <= c < self.cohorts().len() implies (#[trigger] self.cohorts()[
                c]).no_duplicates() by {
                    assert(self.cohorts()[c] == pre[c + 1]);
                }
                assert forall|c1: int, c2: int, x: int|
                    0 <= c1 < self.cohorts().len() && 0 <= c2 < self.cohorts().len() && c1 != c2
                        && #[trigger] seq_has(self.cohorts()[c1], x) implies !#[trigger] seq_has(
                    self.cohorts()[c2],
                    x,
                ) by {
                    assert(self.cohorts()[c1] == pre[c1 + 1]);
                    assert(self.cohorts()[c2] == pre[c2 + 1]);
                    assert(seq_has(pre[c1 + 1], x));
                }
            }
        }
    }
}


/// A held member forces a positive count.
pub proof fn lemma_member_positive(cs: ChainSet, x: int)
    requires
        cs.has(x),
    ensures
        cs.total() > 0,
{
    let c = choose|c: int| 0 <= c < cs.cohorts().len() && seq_has(cs.cohorts()[c], x);
    let a = choose|a: int| 0 <= a < cs.cohorts()[c].len() && cs.cohorts()[c][a] == x;
    lemma_chain_len_member(cs.cohorts(), c);
}

/// A member of some cohort forces a positive chain length.
pub proof fn lemma_chain_len_member(data: Seq<Seq<usize>>, k: int)
    requires
        0 <= k < data.len(),
        data[k].len() > 0,
    ensures
        chain_len(data) > 0,
    decreases data.len(),
{
    lemma_chain_len_nonneg(data.drop_last());
    if k < data.len() - 1 {
        lemma_chain_len_member(data.drop_last(), k);
    }
}

} // verus!
