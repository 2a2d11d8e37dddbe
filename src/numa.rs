//! NUMA topology and CPU selection.
use vstd::prelude::*;

verus! {

/// The online CPUs of each NUMA node, nodes in ascending id order.
pub struct Topology {
    nodes: Vec<(u32, Vec<usize>)>,
}

/// `s` cut to at most `k` elements.
pub open spec fn take_at_most(s: Seq<usize>, k: int) -> Seq<usize> {
    if s.len() <= k {
        s
    } else {
        s.take(k)
    }
}

/// Pass `p` of the round robin over the first `n` lists: element `p` of each
/// list that has one, in list order.
pub open spec fn round_upto(lists: Seq<Seq<usize>>, p: int, n: int) -> Seq<usize>
    decreases n,
{
    if n <= 0 {
        Seq::empty()
    } else {
        round_upto(lists, p, n - 1) + if p < lists[n - 1].len() {
            seq![lists[n - 1][p]]
        } else {
            Seq::empty()
        }
    }
}

/// Passes `0..p` of the round robin, concatenated.
pub open spec fn rounds_upto(lists: Seq<Seq<usize>>, p: int) -> Seq<usize>
    decreases p,
{
    if p <= 0 {
        Seq::empty()
    } else {
        rounds_upto(lists, p - 1) + round_upto(lists, p - 1, lists.len() as int)
    }
}

/// The longest list's length.
pub open spec fn max_len(lists: Seq<Seq<usize>>) -> int
    decreases lists.len(),
{
    if lists.len() == 0 {
        0
    } else {
        let m = max_len(lists.drop_last());
        if lists.last().len() > m {
            lists.last().len() as int
        } else {
            m
        }
    }
}

impl Topology {
    /// The nodes with their CPU lists, ascending by id.
    pub closed spec fn view_nodes(&self) -> Seq<(u32, Seq<usize>)> {
        self.nodes@.map_values(|e: (u32, Vec<usize>)| (e.0, e.1@))
    }

    proof fn lemma_view(&self)
        ensures
            self.view_nodes().len() == self.nodes@.len(),
            forall|i: int| 0 <= i < self.nodes@.len() ==> #[trigger] self.view_nodes()[i] == (self.nodes@[i].0, self.nodes@[i].1@),
    {
    }

    pub open spec fn wf(&self) -> bool {
        forall|i: int, j: int|
            0 <= i < j < self.view_nodes().len() ==> #[trigger] self.view_nodes()[i].0
                < #[trigger] self.view_nodes()[j].0
    }

    /// The CPU list of `node`, if the node is known.
    pub open spec fn cpus_of(&self, node: u32) -> Option<Seq<usize>> {
        if exists|i: int| 0 <= i < self.view_nodes().len() && self.view_nodes()[i].0 == node {
            let i = choose|i: int| 0 <= i < self.view_nodes().len() && self.view_nodes()[i].0 == node;
            Some(self.view_nodes()[i].1)
        } else {
            None
        }
    }

    /// The CPU lists in ascending node order.
    pub open spec fn lists(&self) -> Seq<Seq<usize>> {
        self.view_nodes().map_values(|e: (u32, Seq<usize>)| e.1)
    }

    pub fn new() -> (r: Topology)
        ensures
            r.wf(),
            r.view_nodes() == Seq::<(u32, Seq<usize>)>::empty(),
    {
        let r = Topology { nodes: Vec::new() };
        assert(r.view_nodes() =~= Seq::<(u32, Seq<usize>)>::empty());
        r
    }

    /// Records `cpus` as the CPU list of `node`, replacing any earlier one.
    pub fn insert(&mut self, node: u32, cpus: Vec<usize>)
        requires
            old(self).wf(),
        ensures
            final(self).wf(),
            final(self).cpus_of(node) == Some(cpus@),
            forall|n: u32| n != node ==> #[trigger] final(self).cpus_of(n) == old(self).cpus_of(n),
    {
        proof {
            self.lemma_view();
        }
        let ghost before = self.view_nodes();
        let mut i: usize = 0;
        while i < self.nodes.len() && self.nodes[i].0 < node
            invariant
                i <= self.nodes@.len(),
                before == self.view_nodes(),
                self.wf(),
                forall|j: int| 0 <= j < i ==> #[trigger] before[j].0 < node,
            decreases self.nodes@.len() - i,
        {
            i += 1;
        }
        let replace = i < self.nodes.len() && self.nodes[i].0 == node;
        if replace {
            self.nodes.set(i, (node, cpus));
        } else {
            self.nodes.insert(i, (node, cpus));
        }
        let ghost after = self.view_nodes();
        proof {
            self.lemma_view();
            if replace {
                assert(after =~= before.update(i as int, (node, cpus@)));
            } else {
                assert(after =~= before.insert(i as int, (node, cpus@)));
                assert(i < before.len() ==> before[i as int].0 > node);
            }
            assert forall|a: int, b: int| 0 <= a < b < after.len() implies #[trigger] after[a].0 < #[trigger] after[b].0 by {
                if !replace {
                    if a < i && b > i {
                        assert(after[b] == before[b - 1]);
                        if b - 1 > a {
                            assert(before[a].0 < before[b - 1].0);
                        }
                    } else if a < i && b < i {
                    } else if a == i as int {
                        assert(after[b] == before[b - 1]);
                        if b - 1 > i {
                            assert(before[i as int].0 < before[b - 1].0);
                        }
                    } else if b == i as int {
                    } else {
                        assert(after[a] == before[a - 1]);
                        assert(after[b] == before[b - 1]);
                    }
                }
            }
            assert(after[i as int] == (node, cpus@));
            assert forall|n: u32| n != node implies #[trigger] self.cpus_of(n) == old(self).cpus_of(n) by {
                if exists|j: int| 0 <= j < before.len() && before[j].0 == n {
                    let j = choose|j: int| 0 <= j < before.len() && before[j].0 == n;
                    let j2 = if replace || j < i { j } else { j + 1 };
                    assert(after[j2] == before[j]);
                    let k = choose|k: int| 0 <= k < after.len() && after[k].0 == n;
                    let j3 = choose|j3: int| 0 <= j3 < before.len() && before[j3].0 == n;
                    assert(k == j2);
                    assert(j3 == j);
                } else {
                    assert forall|k: int| 0 <= k < after.len() implies after[k].0 != n by {
                        if k != i {
                            let src = if replace || k < i { k } else { k - 1 };
                            assert(after[k] == before[src]);
                        }
                    }
                }
            }
            let k = choose|k: int| 0 <= k < after.len() && after[k].0 == node;
            assert(k == i);
        }
    }

    pub fn is_empty(&self) -> (r: bool)
        ensures
            r == (self.view_nodes().len() == 0),
    {
        self.nodes.len() == 0
    }

    /// The node ids, ascending.
    pub fn node_ids(&self) -> (r: Vec<u32>)
        ensures
            r@ == self.view_nodes().map_values(|e: (u32, Seq<usize>)| e.0),
    {
        let mut r: Vec<u32> = Vec::new();
        let mut i: usize = 0;
        while i < self.nodes.len()
            invariant
                i <= self.nodes@.len(),
                r@ == self.view_nodes().take(i as int).map_values(|e: (u32, Seq<usize>)| e.0),
            decreases self.nodes@.len() - i,
        {
            r.push(self.nodes[i].0);
            i += 1;
            assert(r@ =~= self.view_nodes().take(i as int).map_values(|e: (u32, Seq<usize>)| e.0));
        }
        assert(self.view_nodes().take(i as int) =~= self.view_nodes());
        r
    }

    fn find(&self, node: u32) -> (r: Option<usize>)
        requires
            self.wf(),
        ensures
            match r {
                Some(i) => i < self.view_nodes().len() && self.view_nodes()[i as int].0 == node && self.cpus_of(node)
                    == Some(self.view_nodes()[i as int].1),
                None => self.cpus_of(node) is None,
            },
    {
        let mut i: usize = 0;
        proof {
            self.lemma_view();
        }
        while i < self.nodes.len()
            invariant
                i <= self.nodes@.len(),
                self.wf(),
                self.view_nodes().len() == self.nodes@.len(),
                forall|j: int| 0 <= j < self.nodes@.len() ==> #[trigger] self.view_nodes()[j] == (self.nodes@[j].0, self.nodes@[j].1@),
                forall|j: int| 0 <= j < i ==> #[trigger] self.view_nodes()[j].0 != node,
            decreases self.nodes@.len() - i,
        {
            proof {
                self.lemma_view();
            }
            if self.nodes[i].0 == node {
                proof {
                    assert(self.view_nodes()[i as int].0 == node);
                    let k = choose|k: int| 0 <= k < self.view_nodes().len() && self.view_nodes()[k].0 == node;
                    assert(k == i);
                }
                return Some(i);
            }
            i += 1;
        }
        None
    }

    /// Whether `node` is known.
    pub fn contains_node(&self, node: u32) -> (r: bool)
        requires
            self.wf(),
        ensures
            r == self.cpus_of(node) is Some,
    {
        self.find(node).is_some()
    }

    /// Number of CPUs of `node`, or 0 when the node is unknown.
    pub fn node_len(&self, node: u32) -> (r: usize)
        requires
            self.wf(),
        ensures
            r == match self.cpus_of(node) {
                Some(c) => c.len(),
                None => 0,
            },
    {
        match self.find(node) {
            Some(i) => self.nodes[i].1.len(),
            None => 0,
        }
    }
}

/// The first `k` CPUs of `node` (all of them if it has fewer), or none when
/// the node is unknown.
pub fn pick_compact(node: u32, k: usize, topo: &Topology) -> (r: Vec<usize>)
    requires
        topo.wf(),
    ensures
        r@ == match topo.cpus_of(node) {
            Some(c) => take_at_most(c, k as int),
            None => Seq::empty(),
        },
{
    let want: usize = k;
    match topo.find(node) {
        Some(i) => {
            proof {
                topo.lemma_view();
            }
            let list = &topo.nodes[i].1;
            let mut out: Vec<usize> = Vec::new();
            let mut j: usize = 0;
            while j < list.len() && j < want
                invariant
                    j <= list@.len(),
                    j <= want,
                    out@ == list@.take(j as int),
                decreases list@.len() - j,
            {
                out.push(list[j]);
                j += 1;
                assert(out@ =~= list@.take(j as int));
            }
            assert(list@ == topo.view_nodes()[i as int].1);
            if list.len() <= want {
                assert(list@.take(j as int) =~= list@);
            }
            out
        },
        None => Vec::new(),
    }
}

/// Up to `k` CPUs picked round robin over the nodes in ascending id order:
/// one CPU per node per pass, until `k` are collected or every list is
/// exhausted. None when `k` is 0.
pub fn pick_spread(k: usize, topo: &Topology) -> (r: Vec<usize>)
    requires
        topo.wf(),
    ensures
        r@ == take_at_most(rounds_upto(topo.lists(), max_len(topo.lists())), k as int),
        r@.len() <= k,
{
    let ghost lists = topo.lists();
    proof {
        topo.lemma_view();
    }
    let n = topo.nodes.len();
    assert(lists.len() == n);
    let mut maxl: usize = 0;
    let mut i: usize = 0;
    while i < n
        invariant
            n == topo.nodes@.len() == lists.len(),
            lists == topo.lists(),
            i <= n,
            maxl == max_len(lists.take(i as int)),
        decreases n - i,
    {
        assert(lists.take(i as int + 1).drop_last() =~= lists.take(i as int));
        assert(topo.nodes@[i as int].1@ == lists[i as int]);
        if topo.nodes[i].1.len() > maxl {
            maxl = topo.nodes[i].1.len();
        }
        i += 1;
    }
    assert(lists.take(n as int) =~= lists);
    let mut out: Vec<usize> = Vec::new();
    let mut p: usize = 0;
    while p < maxl
        invariant
            n == topo.nodes@.len() == lists.len(),
            lists == topo.lists(),
            p <= maxl,
            maxl == max_len(lists),
            out@ == take_at_most(rounds_upto(lists, p as int), k as int),
        decreases maxl - p,
    {
        let mut i: usize = 0;
        while i < n
            invariant
                n == topo.nodes@.len() == lists.len(),
                lists == topo.lists(),
                p < maxl,
                i <= n,
                out@ == take_at_most(rounds_upto(lists, p as int) + round_upto(lists, p as int, i as int), k as int),
            decreases n - i,
        {
            let ghost cur = rounds_upto(lists, p as int) + round_upto(lists, p as int, i as int);
            assert(topo.nodes@[i as int].1@ == lists[i as int]);
            let list = &topo.nodes[i].1;
            if p < list.len() {
                let ghost nxt = cur + seq![list[p as int]];
                assert(rounds_upto(lists, p as int) + round_upto(lists, p as int, i as int + 1) =~= nxt);
                if out.len() < k {
                    out.push(list[p]);
                    assert(out@ =~= take_at_most(nxt, k as int));
                } else {
                    assert(take_at_most(nxt, k as int) =~= take_at_most(cur, k as int));
                }
            } else {
                assert(rounds_upto(lists, p as int) + round_upto(lists, p as int, i as int + 1) =~= cur);
            }
            i += 1;
        }
        p += 1;
    }
    out
}

proof fn lemma_round_empty(lists: Seq<Seq<usize>>, p: int, n: int)
    requires
        0 <= n <= lists.len(),
        p >= max_len(lists),
    ensures
        round_upto(lists, p, n) == Seq::<usize>::empty(),
    decreases n,
{
    if n > 0 {
        lemma_round_empty(lists, p, n - 1);
        lemma_max_len(lists, n - 1);
        assert(round_upto(lists, p, n) =~= Seq::<usize>::empty());
    }
}

proof fn lemma_max_len(lists: Seq<Seq<usize>>, i: int)
    requires
        0 <= i < lists.len(),
    ensures
        lists[i].len() <= max_len(lists),
    decreases lists.len(),
{
    if i < lists.len() - 1 {
        assert(lists.drop_last()[i] == lists[i]);
        lemma_max_len(lists.drop_last(), i);
    }
}


} // verus!
