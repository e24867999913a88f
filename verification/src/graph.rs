use vstd::prelude::*;

verus! {

/// Membership of a node id in an adjacency list, over mathematical
/// integers.
pub open spec fn seq_has(s: Seq<usize>, x: int) -> bool {
    exists|k: int| 0 <= k < s.len() && s[k] == x
}

pub proof fn lemma_seq_has_index(s: Seq<usize>, a: int)
    requires
        0 <= a < s.len(),
    ensures
        seq_has(s, s[a] as int),
{
    assert(0 <= a < s.len() && s[a] == s[a] as int);
}

pub proof fn lemma_has_contains(s: Seq<usize>, x: usize)
    ensures
        seq_has(s, x as int) <==> s.contains(x),
{
    if seq_has(s, x as int) {
        let k = choose|k: int| 0 <= k < s.len() && s[k] == x as int;
        assert(s[k] == x);
    }
    if s.contains(x) {
        let k = choose|k: int| 0 <= k < s.len() && s[k] == x;
        assert(s[k] == x as int);
    }
}

/// Membership test on a plain vector of node ids.
pub fn vec_contains(v: &Vec<usize>, x: usize) -> (b: bool)
    ensures
        b == seq_has(v@, x as int),
{
    let n = v.len();
    let mut i: usize = 0;
    while i < n
        invariant
            i <= n,
            n == v@.len(),
            forall|k: int| 0 <= k < i ==> v@[k] != x,
        decreases n - i,
    {
        if v[i] == x {
            proof {
                assert(v@[i as int] == x as int);
            }
            return true;
        }
        i += 1;
    }
    proof {
        if seq_has(v@, x as int) {
            let k = choose|k: int| 0 <= k < v@.len() && v@[k] == x as int;
            assert(v@[k] == x);
        }
    }
    false
}

/// Removes the one occurrence of `x` from a duplicate-free vector, if
/// present; the order of the rest is not kept.
pub fn vec_remove_value(v: &mut Vec<usize>, x: usize)
    requires
        old(v)@.no_duplicates(),
    ensures
        final(v)@.no_duplicates(),
        !seq_has(final(v)@, x as int),
        forall|y: int| y != x ==> (seq_has(final(v)@, y) <==> seq_has(old(v)@, y)),
        final(v)@.len() == old(v)@.len() - (if seq_has(old(v)@, x as int) {
            1int
        } else {
            0int
        }),
{
    let n = v.len();
    let mut i: usize = 0;
    while i < n
        invariant
            i <= n,
            n == v@.len(),
            v@ == old(v)@,
            old(v)@.no_duplicates(),
            forall|k: int| 0 <= k < i ==> v@[k] != x,
        decreases n - i,
    {
        if v[i] == x {
            let ghost pre = v@;
            v.swap_remove(i);
            proof {
                let post = v@;
                assert(post =~= pre.update(i as int, pre.last()).drop_last());
                assert(pre[i as int] == x);
                assert forall|y: int| y != x implies (seq_has(post, y) <==> seq_has(pre, y)) by {
                    if seq_has(pre, y) {
                        let k = choose|k: int| 0 <= k < pre.len() && pre[k] == y;
                        assert(k != i);
                        if k == pre.len() - 1 {
                            assert(post[i as int] == y);
                        } else {
                            assert(post[k] == y);
                        }
                    }
                    if seq_has(post, y) {
                        let k = choose|k: int| 0 <= k < post.len() && post[k] == y;
                        if k == i {
                            assert(pre[pre.len() - 1] == y);
                        } else {
                            assert(pre[k] == y);
                        }
                    }
                }
                assert(!seq_has(post, x as int)) by {
                    if seq_has(post, x as int) {
                        let k = choose|k: int| 0 <= k < post.len() && post[k] == x as int;
                        if k == i {
                            assert(pre[pre.len() - 1] == x);
                            assert(i != pre.len() - 1);
                            assert(false);
                        } else {
                            assert(pre[k] == x);
                            if k < i {
                                assert(false);
                            } else {
                                assert(pre[i as int] == pre[k]);
                                assert(false);
                            }
                        }
                    }
                }
                assert(post.no_duplicates()) by {
                    assert forall|a: int, b: int|
                        0 <= a < post.len() && 0 <= b < post.len() && a != b implies post[a]
                        != post[b] by {
                        if a == i {
                            assert(post[a] == pre[pre.len() - 1]);
                            assert(post[b] == pre[b]);
                        } else if b == i {
                            assert(post[a] == pre[a]);
                            assert(post[b] == pre[pre.len() - 1]);
                        } else {
                            assert(post[a] == pre[a]);
                            assert(post[b] == pre[b]);
                        }
                    }
                }
            }
            return ;
        }
        i += 1;
    }
    proof {
        if seq_has(v@, x as int) {
            let k = choose|k: int| 0 <= k < v@.len() && v@[k] == x as int;
            assert(v@[k] == x);
        }
    }
}

/// One contact layer: an undirected graph on `[0, n)` stored split,
/// `left_nodes[i]` holding the neighbors below `i` and `right_nodes[i]`
/// those above. An edge appears on both sides, exactly once.
pub struct Graph {
    pub left_nodes: Vec<Vec<usize>>,
    pub right_nodes: Vec<Vec<usize>>,
}

impl Graph {
    pub open spec fn n(&self) -> int {
        self.left_nodes@.len() as int
    }

    pub open spec fn left(&self, i: int) -> Seq<usize> {
        self.left_nodes@[i]@
    }

    pub open spec fn right(&self, i: int) -> Seq<usize> {
        self.right_nodes@[i]@
    }

    /// Well-formedness: split storage in range, duplicate-free, and
    /// symmetric (the two half-edges always exist together).
    pub open spec fn wf(&self) -> bool {
        &&& self.right_nodes@.len() == self.n()
        &&& forall|i: int, a: int|
            0 <= i < self.n() && 0 <= a < self.left(i).len() ==> #[trigger] self.left(i)[a] < i
        &&& forall|i: int, a: int|
            0 <= i < self.n() && 0 <= a < self.right(i).len() ==> i < #[trigger] self.right(i)[a]
                < self.n()
        &&& forall|i: int| 0 <= i < self.n() ==> (#[trigger] self.left(i)).no_duplicates()
        &&& forall|i: int| 0 <= i < self.n() ==> (#[trigger] self.right(i)).no_duplicates()
        &&& forall|i: int, j: int|
            #![trigger seq_has(self.left(i), j)]
            #![trigger seq_has(self.right(j), i)]
            0 <= j < i < self.n() ==> (seq_has(self.left(i), j) <==> seq_has(self.right(j), i))
    }

    /// Edge relation as stored: the lower endpoint sits in the left
    /// list of the higher one.
    pub open spec fn edge(&self, i: int, j: int) -> bool {
        if j < i {
            seq_has(self.left(i), j)
        } else {
            seq_has(self.right(i), j)
        }
    }

    /// Graph symmetry: a well-formed layer never holds a half-edge
    /// alone.
    pub proof fn lemma_symmetry(&self, i: int, j: int)
        requires
            self.wf(),
            0 <= i < self.n(),
            0 <= j < self.n(),
        ensures
            self.edge(i, j) <==> self.edge(j, i),
    {
    }

    pub fn new() -> (g: Graph)
        ensures
            g.wf(),
            g.n() == 0,
    {
        Graph { left_nodes: Vec::new(), right_nodes: Vec::new() }
    }

    pub fn node_count(&self) -> (r: usize)
        ensures
            r == self.n(),
    {
        self.left_nodes.len()
    }

    /// Appends an isolated node; its id is the prior node count.
    pub fn register_node(&mut self) -> (id: usize)
        requires
            old(self).wf(),
            old(self).n() < usize::MAX,
        ensures
            final(self).wf(),
            id == old(self).n(),
            final(self).n() == old(self).n() + 1,
            forall|i: int|
                0 <= i < old(self).n() ==> #[trigger] final(self).left(i) == old(self).left(i)
                    && final(self).right(i) == old(self).right(i),
            final(self).left(old(self).n()).len() == 0,
            final(self).right(old(self).n()).len() == 0,
            forall|i: int, j: int|
                0 <= i < final(self).n() && 0 <= j < final(self).n() ==> (#[trigger] final(self).edge(i, j) <==> (i < old(self).n() && j < old(self).n() && old(self).edge(i, j))),
    {
        let id = self.left_nodes.len();
        self.left_nodes.push(Vec::new());
        self.right_nodes.push(Vec::new());
        proof {
            assert(forall|i: int|
                0 <= i < id ==> self.left(i) == old(self).left(i) && self.right(i) == old(
                    self,
                ).right(i));
            assert(self.left(id as int).len() == 0);
            assert(self.right(id as int).len() == 0);
            assert forall|i: int, j: int|
                0 <= i < self.n() && 0 <= j < self.n() implies (#[trigger] self.edge(i, j) <==> (
            i < id && j < id && old(self).edge(i, j))) by {
                if i == id || j == id {
                    assert(!self.edge(i, j)) by {
                        if j < i {
                            if seq_has(self.left(i), j) {
                                let k = choose|k: int|
                                    0 <= k < self.left(i).len() && self.left(i)[k] == j;
                                assert(self.left(i)[k] < i);
                            }
                        } else {
                            if seq_has(self.right(i), j) {
                                let k = choose|k: int|
                                    0 <= k < self.right(i).len() && self.right(i)[k] == j;
                                assert(i < self.right(i)[k] < self.n());
                            }
                        }
                    }
                }
            }
        }
        id
    }

    /// Inserts the undirected edge `{i, j}`; already-present edges are
    /// left alone, so set semantics hold on both sides.
    pub fn add_link(&mut self, i: usize, j: usize)
        requires
            old(self).wf(),
            i < old(self).n(),
            j < old(self).n(),
            i != j,
        ensures
            final(self).wf(),
            final(self).n() == old(self).n(),
            forall|a: int, b: int|
                0 <= a < final(self).n() && 0 <= b < final(self).n() ==> (#[trigger] final(self).edge(a, b) <==> (old(self).edge(a, b) || (a == i && b == j) || (a == j && b
                    == i))),
    {
        let (lo, hi) = if j < i {
            (j, i)
        } else {
            (i, j)
        };
        if !vec_contains(&self.left_nodes[hi], lo) {
            let ghost pre = *self;
            self.left_nodes[hi].push(lo);
            self.right_nodes[lo].push(hi);
            proof {
                assert(self.left(hi as int) =~= pre.left(hi as int).push(lo));
                assert(self.right(lo as int) =~= pre.right(lo as int).push(hi));
                assert(forall|x: int|
                    0 <= x < self.n() && x != hi ==> self.left(x) == pre.left(x));
                assert(forall|x: int|
                    0 <= x < self.n() && x != lo ==> self.right(x) == pre.right(x));
                lemma_push_has(pre.left(hi as int), lo);
                lemma_push_has(pre.right(lo as int), hi);
                assert(!seq_has(pre.right(lo as int), hi as int)) by {
                    assert(seq_has(pre.left(hi as int), lo as int) <==> seq_has(
                        pre.right(lo as int),
                        hi as int,
                    ));
                }
                assert forall|x: int, a: int|
                    0 <= x < self.n() && 0 <= a < self.left(x).len() implies #[trigger] self.left(
                    x)[a] < x by {
                    if x == hi {
                        if a < pre.left(x).len() {
                            assert(self.left(x)[a] == pre.left(x)[a]);
                        } else {
                            assert(self.left(x)[a] == lo);
                        }
                    } else {
                        assert(self.left(x) == pre.left(x));
                    }
                }
                assert forall|x: int, a: int|
                    0 <= x < self.n() && 0 <= a < self.right(x).len() implies x
                    < #[trigger] self.right(x)[a] < self.n() by {
                    if x == lo {
                        if a < pre.right(x).len() {
                            assert(self.right(x)[a] == pre.right(x)[a]);
                        } else {
                            assert(self.right(x)[a] == hi);
                        }
                    } else {
                        assert(self.right(x) == pre.right(x));
                    }
                }
                assert forall|x: int| 0 <= x < self.n() implies (#[trigger] self.left(
                    x,
                )).no_duplicates() by {
                    if x == hi {
                        assert(self.left(x) == pre.left(x).push(lo));
                    } else {
                        assert(self.left(x) == pre.left(x));
                    }
                }
                assert forall|x: int| 0 <= x < self.n() implies (#[trigger] self.right(
                    x,
                )).no_duplicates() by {
                    if x == lo {
                        assert(self.right(x) == pre.right(x).push(hi));
                    } else {
                        assert(self.right(x) == pre.right(x));
                    }
                }
                assert forall|a: int, b: int|
                    #![trigger seq_has(self.left(a), b), seq_has(self.right(b), a)]
                    0 <= b < a < self.n() implies (seq_has(self.left(a), b) <==> seq_has(
                    self.right(b),
                    a,
                )) by {
                    assert(seq_has(pre.left(a), b) <==> seq_has(pre.right(b), a));
                    if a == hi && b == lo {
                        assert(seq_has(self.left(a), b));
                        assert(seq_has(self.right(b), a));
                    } else {
                        if a == hi {
                            assert(b != lo);
                            assert(seq_has(self.left(a), b) <==> (seq_has(pre.left(a), b) || b
                                == lo));
                        } else {
                            assert(self.left(a) == pre.left(a));
                        }
                        if b == lo {
                            assert(a != hi);
                            assert(seq_has(self.right(b), a) <==> (seq_has(pre.right(b), a) || a
                                == hi));
                        } else {
                            assert(self.right(b) == pre.right(b));
                        }
                    }
                }
                assert(self.wf());
                assert forall|a: int, b: int|
                    0 <= a < self.n() && 0 <= b < self.n() implies (#[trigger] self.edge(a, b)
                    <==> (pre.edge(a, b) || (a == i && b == j) || (a == j && b == i))) by {
                    if b < a {
                        if a == hi && b == lo {
                            assert(seq_has(self.left(a), b));
                        } else if a == hi {
                            assert(seq_has(self.left(a), b) <==> (seq_has(pre.left(a), b) || b
                                == lo));
                        } else {
                            assert(self.left(a) == pre.left(a));
                        }
                    } else {
                        if a == lo && b == hi {
                            assert(seq_has(self.right(a), b));
                        } else if a == lo {
                            assert(seq_has(self.right(a), b) <==> (seq_has(pre.right(a), b) || b
                                == hi));
                        } else {
                            assert(self.right(a) == pre.right(a));
                        }
                    }
                }
            }
        } else {
            proof {
                assert(seq_has(self.left(hi as int), lo as int));
                assert(seq_has(self.right(lo as int), hi as int)) by {
                    assert(seq_has(self.left(hi as int), lo as int) <==> seq_has(
                        self.right(lo as int),
                        hi as int,
                    ));
                }
                assert forall|a: int, b: int|
                    0 <= a < self.n() && 0 <= b < self.n() implies (#[trigger] self.edge(a, b)
                    <==> (old(self).edge(a, b) || (a == i && b == j) || (a == j && b == i))) by {}
            }
        }
    }

    /// Removes the undirected edge `{i, j}` from both sides; absent
    /// edges are left alone.
    pub fn remove_link(&mut self, i: usize, j: usize)
        requires
            old(self).wf(),
            i < old(self).n(),
            j < old(self).n(),
            i != j,
        ensures
            final(self).wf(),
            final(self).n() == old(self).n(),
            forall|a: int, b: int|
                0 <= a < final(self).n() && 0 <= b < final(self).n() ==> (#[trigger] final(self).edge(a, b) <==> (old(self).edge(a, b) && !((a == i && b == j) || (a == j && b
                    == i)))),
    {
        let (lo, hi) = if j < i {
            (j, i)
        } else {
            (i, j)
        };
        let ghost pre = *self;
        proof {
            assert(pre.left(hi as int).no_duplicates());
            assert(pre.right(lo as int).no_duplicates());
        }
        vec_remove_value(&mut self.left_nodes[hi], lo);
        let ghost mid = *self;
        vec_remove_value(&mut self.right_nodes[lo], hi);
        proof {
            assert(forall|x: int| 0 <= x < self.n() && x != hi ==> self.left(x) == pre.left(x));
            assert(forall|x: int| 0 <= x < self.n() && x != lo ==> self.right(x) == pre.right(x));
            assert(forall|x: int| 0 <= x < self.n() ==> self.left(x) == mid.left(x));
            assert(mid.right(lo as int) == pre.right(lo as int));
            assert forall|x: int, a: int|
                0 <= x < self.n() && 0 <= a < self.left(x).len() implies #[trigger] self.left(
                x)[a] < x by {
                if x == hi {
                    lemma_seq_has_index(self.left(x), a);
                    let e = self.left(x)[a] as int;
                    assert(seq_has(mid.left(x), e));
                    assert(e != lo);
                    assert(seq_has(pre.left(x), e));
                    let k = choose|k: int| 0 <= k < pre.left(x).len() && pre.left(x)[k] == e;
                    assert(pre.left(x)[k] < x);
                } else {
                    assert(self.left(x) == pre.left(x));
                    assert(pre.left(x)[a] < x);
                }
            }
            assert forall|x: int, a: int|
                0 <= x < self.n() && 0 <= a < self.right(x).len() implies x
                < #[trigger] self.right(x)[a] < self.n() by {
                if x == lo {
                    lemma_seq_has_index(self.right(x), a);
                    let e = self.right(x)[a] as int;
                    assert(e != hi);
                    assert(seq_has(pre.right(x), e));
                    let k = choose|k: int| 0 <= k < pre.right(x).len() && pre.right(x)[k] == e;
                    assert(x < pre.right(x)[k] < self.n());
                } else {
                    assert(self.right(x) == pre.right(x));
                    assert(x < pre.right(x)[a] < self.n());
                }
            }
            assert forall|x: int| 0 <= x < self.n() implies (#[trigger] self.left(
                x,
            )).no_duplicates() by {
                if x != hi {
                    assert(self.left(x) == pre.left(x));
                }
            }
            assert forall|x: int| 0 <= x < self.n() implies (#[trigger] self.right(
                x,
            )).no_duplicates() by {
                if x != lo {
                    assert(self.right(x) == pre.right(x));
                }
            }
            assert forall|a: int, b: int|
                #![trigger seq_has(self.left(a), b), seq_has(self.right(b), a)]
                0 <= b < a < self.n() implies (seq_has(self.left(a), b) <==> seq_has(
                self.right(b),
                a,
            )) by {
                assert(seq_has(pre.left(a), b) <==> seq_has(pre.right(b), a));
                if a == hi && b == lo {
                    assert(!seq_has(self.left(a), b));
                    assert(!seq_has(self.right(b), a));
                } else {
                    if a == hi {
                        assert(b != lo);
                        assert(seq_has(self.left(a), b) <==> seq_has(pre.left(a), b));
                    } else {
                        assert(self.left(a) == pre.left(a));
                    }
                    if b == lo {
                        assert(a != hi);
                        assert(seq_has(self.right(b), a) <==> seq_has(pre.right(b), a));
                    } else {
                        assert(self.right(b) == pre.right(b));
                    }
                }
            }
            assert(self.wf());
            assert forall|a: int, b: int|
                0 <= a < self.n() && 0 <= b < self.n() implies (#[trigger] self.edge(a, b) <==> (
            pre.edge(a, b) && !((a == i && b == j) || (a == j && b == i)))) by {
                if b < a {
                    if a == hi && b == lo {
                        assert(!seq_has(self.left(a), b));
                    } else if a == hi {
                        assert(b != lo);
                        assert(seq_has(self.left(a), b) <==> seq_has(pre.left(a), b));
                    } else {
                        assert(self.left(a) == pre.left(a));
                    }
                } else {
                    if a == lo && b == hi {
                        assert(!seq_has(self.right(a), b));
                    } else if a == lo {
                        assert(b != hi);
                        assert(seq_has(self.right(a), b) <==> seq_has(pre.right(a), b));
                    } else {
                        assert(self.right(a) == pre.right(a));
                    }
                }
            }
        }
    }

    pub fn neighbors(&self, i: usize) -> (r: Vec<usize>)
        requires
            self.wf(),
            i < self.n(),
        ensures
            r@ == self.left(i as int) + self.right(i as int),
            forall|a: int| 0 <= a < r@.len() ==> #[trigger] r@[a] < self.n() && r@[a] != i,
            forall|a: int| 0 <= a < r@.len() ==> self.edge(i as int, #[trigger] r@[a] as int),
    {
        let li = &self.left_nodes[i];
        let ri = &self.right_nodes[i];
        let mut r: Vec<usize> = Vec::new();
        let mut a: usize = 0;
        let nl = li.len();
        while a < nl
            invariant
                a <= nl,
                nl == li@.len(),
                r@ =~= li@.take(a as int),
            decreases nl - a,
        {
            r.push(li[a]);
            proof {
                assert(r@ =~= li@.take(a as int + 1));
            }
            a += 1;
        }
        proof {
            assert(r@ =~= li@);
        }
        let mut b: usize = 0;
        let nr = ri.len();
        while b < nr
            invariant
                b <= nr,
                nr == ri@.len(),
                r@ =~= li@ + ri@.take(b as int),
            decreases nr - b,
        {
            r.push(ri[b]);
            proof {
                assert(r@ =~= li@ + ri@.take(b as int + 1));
            }
            b += 1;
        }
        proof {
            assert(r@ =~= li@ + ri@);
            assert forall|x: int| 0 <= x < r@.len() implies #[trigger] r@[x] < self.n() && r@[x]
                != i && self.edge(i as int, r@[x] as int) by {
                if x < li@.len() {
                    assert(r@[x] == self.left(i as int)[x]);
                    assert(seq_has(self.left(i as int), r@[x] as int));
                } else {
                    assert(r@[x] == self.right(i as int)[x - li@.len()]);
                    assert(seq_has(self.right(i as int), r@[x] as int));
                }
            }
        }
        r
    }

    /// The lower-neighbor half of `i`'s adjacency (each edge once, at
    /// its higher endpoint).
    pub fn left_neighbors(&self, i: usize) -> (r: Vec<usize>)
        requires
            self.wf(),
            i < self.n(),
        ensures
            r@ == self.left(i as int),
            forall|a: int| 0 <= a < r@.len() ==> #[trigger] r@[a] < i,
    {
        let li = &self.left_nodes[i];
        let mut r: Vec<usize> = Vec::new();
        let mut a: usize = 0;
        let nl = li.len();
        while a < nl
            invariant
                a <= nl,
                nl == li@.len(),
                r@ =~= li@.take(a as int),
            decreases nl - a,
        {
            r.push(li[a]);
            proof {
                assert(r@ =~= li@.take(a as int + 1));
            }
            a += 1;
        }
        proof {
            assert(r@ =~= li@);
            assert forall|a: int| 0 <= a < r@.len() implies #[trigger] r@[a] < i by {
                assert(r@[a] == self.left(i as int)[a]);
            }
        }
        r
    }
}

pub proof fn lemma_push_has(s: Seq<usize>, v: usize)
    ensures
        forall|y: int| #[trigger] seq_has(s.push(v), y) <==> (seq_has(s, y) || y == v),
        !seq_has(s, v as int) && s.no_duplicates() ==> s.push(v).no_duplicates(),
{
    assert forall|y: int| #[trigger] seq_has(s.push(v), y) implies (seq_has(s, y) || y == v) by {
        let k = choose|k: int| 0 <= k < s.push(v).len() && s.push(v)[k] == y;
        if k < s.len() {
            assert(s[k] == y);
        }
    }
    assert forall|y: int| (seq_has(s, y) || y == v) implies #[trigger] seq_has(s.push(v), y) by {
        if seq_has(s, y) {
            let k = choose|k: int| 0 <= k < s.len() && s[k] == y;
            assert(s.push(v)[k] == y);
        } else {
            assert(s.push(v)[s.len() as int] == y);
        }
    }
    if !seq_has(s, v as int) && s.no_duplicates() {
        assert forall|a: int, b: int|
            0 <= a < s.push(v).len() && 0 <= b < s.push(v).len() && a != b implies s.push(v)[a]
            != s.push(v)[b] by {
            if a < s.len() && b < s.len() {
            } else if a < s.len() {
                assert(seq_has(s, s[a] as int));
            } else if b < s.len() {
                assert(seq_has(s, s[b] as int));
            }
        }
    }
}

} // verus!
