//! The identity map: a bijective table between virtual-node ids and live
//! node handles.

use vstd::prelude::*;
use crate::dom::NodeRef;

verus! {

broadcast use vstd::std_specs::vec::group_vec_axioms;

/// The mathematical shape of the identity map: id/handle pairs in insertion
/// order, with no id and no handle occurring twice.
pub type IdsM = Seq<(Seq<char>, NodeRef)>;

/// Whether the id `k` is registered.
pub open spec fn ids_has_id(m: IdsM, k: Seq<char>) -> bool {
    exists|i: int| 0 <= i < m.len() && m[i].0 == k
}

/// The position of the id `k`.
pub open spec fn ids_id_index(m: IdsM, k: Seq<char>) -> int {
    choose|i: int| 0 <= i < m.len() && m[i].0 == k
}

/// The handle registered under the id `k`.
pub open spec fn ids_node_of(m: IdsM, k: Seq<char>) -> NodeRef {
    m[ids_id_index(m, k)].1
}

/// Whether the handle `n` is registered.
pub open spec fn ids_has_node(m: IdsM, n: NodeRef) -> bool {
    exists|i: int| 0 <= i < m.len() && m[i].1 == n
}

/// The position of the handle `n`.
pub open spec fn ids_node_index(m: IdsM, n: NodeRef) -> int {
    choose|i: int| 0 <= i < m.len() && m[i].1 == n
}

/// The id the handle `n` is registered under.
pub open spec fn ids_id_of(m: IdsM, n: NodeRef) -> Seq<char> {
    m[ids_node_index(m, n)].0
}

/// The map after dropping the id `k`; unchanged when it is absent.
pub open spec fn ids_remove_id(m: IdsM, k: Seq<char>) -> IdsM {
    if ids_has_id(m, k) {
        m.remove(ids_id_index(m, k))
    } else {
        m
    }
}

/// The map after dropping the handle `n`; unchanged when it is absent.
pub open spec fn ids_remove_node(m: IdsM, n: NodeRef) -> IdsM {
    if ids_has_node(m, n) {
        m.remove(ids_node_index(m, n))
    } else {
        m
    }
}

/// The map after registering `k` for `n`: any stale pair carrying the same
/// id or the same handle goes first, then the new pair comes last.
pub open spec fn ids_insert(m: IdsM, k: Seq<char>, n: NodeRef) -> IdsM {
    ids_remove_node(ids_remove_id(m, k), n).push((k, n))
}

/// The map is a bijection: no id twice, no handle twice.
pub open spec fn ids_wf(m: IdsM) -> bool {
    forall|i: int, j: int| 0 <= i < j < m.len() ==> m[i].0 != m[j].0 && m[i].1 != m[j].1
}

/// Dropping an id keeps the map a bijection, drops that id, and adds
/// nothing.
pub proof fn lemma_ids_remove_id_wf(m: IdsM, k: Seq<char>)
    requires
        ids_wf(m),
    ensures
        ids_wf(ids_remove_id(m, k)),
        !ids_has_id(ids_remove_id(m, k), k),
        forall|k2: Seq<char>|
            ids_has_id(ids_remove_id(m, k), k2) ==> #[trigger] ids_has_id(m, k2),
        forall|n: NodeRef| ids_has_node(ids_remove_id(m, k), n) ==> #[trigger] ids_has_node(m, n),
{
    if ids_has_id(m, k) {
        let w = ids_id_index(m, k);
        assert(0 <= w < m.len() && m[w].0 == k);
        let m2 = m.remove(w);
        assert forall|i: int, j: int| 0 <= i < j < m2.len() implies m2[i].0 != m2[j].0 && m2[i].1
            != m2[j].1 by {
            let i0 = if i < w { i } else { i + 1 };
            let j0 = if j < w { j } else { j + 1 };
            assert(m2[i] == m[i0]);
            assert(m2[j] == m[j0]);
            assert(m[i0].0 != m[j0].0 && m[i0].1 != m[j0].1);
        }
        assert forall|i: int| 0 <= i < m2.len() implies m2[i].0 != k by {
            let i0 = if i < w { i } else { i + 1 };
            assert(m2[i] == m[i0]);
            if i0 < w {
                assert(m[i0].0 != m[w].0);
            } else {
                assert(m[w].0 != m[i0].0);
            }
        }
        assert forall|k2: Seq<char>| ids_has_id(m2, k2) implies #[trigger] ids_has_id(m, k2) by {
            let i = choose|i: int| 0 <= i < m2.len() && m2[i].0 == k2;
            let i0 = if i < w { i } else { i + 1 };
            assert(m2[i] == m[i0]);
            assert(m[i0].0 == k2);
        }
        assert forall|n: NodeRef| ids_has_node(m2, n) implies #[trigger] ids_has_node(m, n) by {
            let i = choose|i: int| 0 <= i < m2.len() && m2[i].1 == n;
            let i0 = if i < w { i } else { i + 1 };
            assert(m2[i] == m[i0]);
            assert(m[i0].1 == n);
        }
    }
}

/// Dropping a handle keeps the map a bijection, drops that handle, and adds
/// nothing.
pub proof fn lemma_ids_remove_node_wf(m: IdsM, n: NodeRef)
    requires
        ids_wf(m),
    ensures
        ids_wf(ids_remove_node(m, n)),
        !ids_has_node(ids_remove_node(m, n), n),
        forall|k2: Seq<char>|
            ids_has_id(ids_remove_node(m, n), k2) ==> #[trigger] ids_has_id(m, k2),
        forall|n2: NodeRef|
            ids_has_node(ids_remove_node(m, n), n2) ==> #[trigger] ids_has_node(m, n2),
{
    if ids_has_node(m, n) {
        let w = ids_node_index(m, n);
        assert(0 <= w < m.len() && m[w].1 == n);
        let m2 = m.remove(w);
        assert forall|i: int, j: int| 0 <= i < j < m2.len() implies m2[i].0 != m2[j].0 && m2[i].1
            != m2[j].1 by {
            let i0 = if i < w { i } else { i + 1 };
            let j0 = if j < w { j } else { j + 1 };
            assert(m2[i] == m[i0]);
            assert(m2[j] == m[j0]);
            assert(m[i0].0 != m[j0].0 && m[i0].1 != m[j0].1);
        }
        assert forall|i: int| 0 <= i < m2.len() implies m2[i].1 != n by {
            let i0 = if i < w { i } else { i + 1 };
            assert(m2[i] == m[i0]);
            if i0 < w {
                assert(m[i0].1 != m[w].1);
            } else {
                assert(m[w].1 != m[i0].1);
            }
        }
        assert forall|k2: Seq<char>| ids_has_id(m2, k2) implies #[trigger] ids_has_id(m, k2) by {
            let i = choose|i: int| 0 <= i < m2.len() && m2[i].0 == k2;
            let i0 = if i < w { i } else { i + 1 };
            assert(m2[i] == m[i0]);
            assert(m[i0].0 == k2);
        }
        assert forall|n2: NodeRef| ids_has_node(m2, n2) implies #[trigger] ids_has_node(m, n2) by {
            let i = choose|i: int| 0 <= i < m2.len() && m2[i].1 == n2;
            let i0 = if i < w { i } else { i + 1 };
            assert(m2[i] == m[i0]);
            assert(m[i0].1 == n2);
        }
    }
}

/// Registering a pair keeps the map a bijection.
pub proof fn lemma_ids_insert_wf(m: IdsM, k: Seq<char>, n: NodeRef)
    requires
        ids_wf(m),
    ensures
        ids_wf(ids_insert(m, k, n)),
{
    lemma_ids_remove_id_wf(m, k);
    let m1 = ids_remove_id(m, k);
    lemma_ids_remove_node_wf(m1, n);
    let m2 = ids_remove_node(m1, n);
    assert(!ids_has_id(m2, k)) by {
        if ids_has_id(m2, k) {
            assert(ids_has_id(m1, k));
        }
    }
    assert(!ids_has_node(m2, n));
    let m3 = m2.push((k, n));
    assert forall|i: int, j: int| 0 <= i < j < m3.len() implies m3[i].0 != m3[j].0 && m3[i].1
        != m3[j].1 by {
        if j == m2.len() {
            assert(m3[i] == m2[i]);
            if m2[i].0 == k {
                assert(ids_has_id(m2, k));
            }
            if m2[i].1 == n {
                assert(ids_has_node(m2, n));
            }
        } else {
            assert(m3[i] == m2[i]);
            assert(m3[j] == m2[j]);
            assert(m2[i].0 != m2[j].0 && m2[i].1 != m2[j].1);
        }
    }
}

/// Bijection invariant: in a well-formed identity map, following a
/// registered id to its node and back gives that id again, and no two
/// distinct registered ids share a node. Every map a `NodesIds` ever
/// exposes is well formed, so this holds at every point of every sequence
/// of transactions.
pub proof fn lemma_bijection(m: IdsM)
    requires
        ids_wf(m),
    ensures
        forall|id: Seq<char>|
            #[trigger] ids_has_id(m, id) ==> ids_has_node(m, ids_node_of(m, id)) && ids_id_of(
                m,
                ids_node_of(m, id),
            ) == id,
        forall|id1: Seq<char>, id2: Seq<char>|
            ids_has_id(m, id1) && ids_has_id(m, id2) && #[trigger] ids_node_of(m, id1)
                == #[trigger] ids_node_of(m, id2) ==> id1 == id2,
{
    assert forall|id: Seq<char>| #[trigger] ids_has_id(m, id) implies ids_has_node(
        m,
        ids_node_of(m, id),
    ) && ids_id_of(m, ids_node_of(m, id)) == id by {
        let w = ids_id_index(m, id);
        assert(0 <= w < m.len() && m[w].0 == id);
        let n = m[w].1;
        assert(ids_has_node(m, n));
        let u = ids_node_index(m, n);
        assert(0 <= u < m.len() && m[u].1 == n);
        if u != w {
            if u < w {
                assert(m[u].1 != m[w].1);
            } else {
                assert(m[w].1 != m[u].1);
            }
        }
        assert(u == w);
    }
    assert forall|id1: Seq<char>, id2: Seq<char>|
        ids_has_id(m, id1) && ids_has_id(m, id2) && #[trigger] ids_node_of(m, id1)
            == #[trigger] ids_node_of(m, id2) implies id1 == id2 by {
        let w1 = ids_id_index(m, id1);
        let w2 = ids_id_index(m, id2);
        assert(0 <= w1 < m.len() && m[w1].0 == id1);
        assert(0 <= w2 < m.len() && m[w2].0 == id2);
        if w1 != w2 {
            if w1 < w2 {
                assert(m[w1].1 != m[w2].1);
            } else {
                assert(m[w2].1 != m[w1].1);
            }
        }
    }
}

/// The identity map itself: id/handle pairs, both directions unique.
pub struct NodesIdsInner {
    pairs: Vec<(String, NodeRef)>,
}

/// The model of the identity map.
pub closed spec fn ids_m(t: NodesIdsInner) -> IdsM {
    Seq::new(
        t.pairs@.len(),
        |i: int|
            if 0 <= i < t.pairs@.len() {
                (t.pairs@[i].0@, t.pairs@[i].1)
            } else {
                (Seq::<char>::empty(), NodeRef { raw: 0 })
            },
    )
}

impl View for NodesIdsInner {
    type V = IdsM;

    closed spec fn view(&self) -> IdsM {
        ids_m(*self)
    }
}

impl NodesIdsInner {
    /// The map is a bijection.
    pub open spec fn wf(self) -> bool {
        ids_wf(self@)
    }

    /// An empty map.
    pub fn new() -> (r: NodesIdsInner)
        ensures
            r@ == Seq::<(Seq<char>, NodeRef)>::empty(),
    {
        let r = NodesIdsInner { pairs: Vec::new() };
        proof {
            assert(r@ =~= Seq::<(Seq<char>, NodeRef)>::empty());
        }
        r
    }

    /// How many pairs are registered.
    pub fn len(&self) -> (r: usize)
        ensures
            r == self@.len(),
    {
        self.pairs.len()
    }

    /// Registers `node` under `id`, overwriting both directions: a stale
    /// pair with the same id or the same node goes first.
    pub fn insert(&mut self, id: String, node: NodeRef)
        requires
            old(self).wf(),
        ensures
            final(self)@ == ids_insert(old(self)@, id@, node),
            final(self).wf(),
    {
        let _ = self.remove_id(&id);
        let _ = self.remove_node(&node);
        let ghost m2 = self@;
        self.pairs.push((id, node));
        proof {
            assert(self@ =~= m2.push((id@, node)));
            lemma_ids_insert_wf(old(self)@, id@, node);
        }
    }

    /// Unregisters the handle `node`, both directions, and hands its id
    /// back.
    pub fn remove_node(&mut self, node: &NodeRef) -> (r: Option<String>)
        requires
            old(self).wf(),
        ensures
            final(self)@ == ids_remove_node(old(self)@, *node),
            final(self).wf(),
            match r {
                Option::Some(id) => ids_has_node(old(self)@, *node) && id@ == ids_id_of(
                    old(self)@,
                    *node,
                ),
                Option::None => !ids_has_node(old(self)@, *node),
            },
    {
        let ghost m0 = self@;
        let mut i: usize = 0;
        while i < self.pairs.len()
            invariant
                m0 == self@,
                m0 == old(self)@,
                ids_wf(m0),
                i <= self@.len(),
                self@.len() == self.pairs@.len(),
                forall|j: int| 0 <= j < i ==> self@[j].1 != *node,
                forall|j: int|
                    0 <= j < self@.len() ==> self@[j] == (
                        #[trigger] self.pairs@[j].0@,
                        self.pairs@[j].1,
                    ),
            decreases self@.len() - i,
        {
            if self.pairs[i].1 == *node {
                let ghost w = ids_node_index(m0, *node);
                proof {
                    assert(m0[i as int].1 == *node);
                    assert(ids_has_node(m0, *node));
                    assert(0 <= w < m0.len() && m0[w].1 == *node);
                    if w < i {
                        assert(m0[w].1 != m0[i as int].1);
                    }
                    if w > i {
                        assert(m0[i as int].1 != m0[w].1);
                    }
                    assert(w == i as int);
                    lemma_ids_remove_node_wf(m0, *node);
                }
                let pair = self.pairs.remove(i);
                proof {
                    assert(self@ =~= m0.remove(i as int));
                }
                return Option::Some(pair.0);
            }
            i = i + 1;
        }
        Option::None
    }

    /// Unregisters the id `id`, both directions, and hands its node back.
    pub fn remove_id(&mut self, id: &String) -> (r: Option<NodeRef>)
        requires
            old(self).wf(),
        ensures
            final(self)@ == ids_remove_id(old(self)@, id@),
            final(self).wf(),
            match r {
                Option::Some(n) => ids_has_id(old(self)@, id@) && n == ids_node_of(
                    old(self)@,
                    id@,
                ),
                Option::None => !ids_has_id(old(self)@, id@),
            },
    {
        let ghost m0 = self@;
        let mut i: usize = 0;
        while i < self.pairs.len()
            invariant
                m0 == self@,
                m0 == old(self)@,
                ids_wf(m0),
                i <= self@.len(),
                self@.len() == self.pairs@.len(),
                forall|j: int| 0 <= j < i ==> self@[j].0 != id@,
                forall|j: int|
                    0 <= j < self@.len() ==> self@[j] == (
                        #[trigger] self.pairs@[j].0@,
                        self.pairs@[j].1,
                    ),
            decreases self@.len() - i,
        {
            if self.pairs[i].0 == *id {
                let ghost w = ids_id_index(m0, id@);
                proof {
                    assert(m0[i as int].0 == id@);
                    assert(ids_has_id(m0, id@));
                    assert(0 <= w < m0.len() && m0[w].0 == id@);
                    if w < i {
                        assert(m0[w].0 != m0[i as int].0);
                    }
                    if w > i {
                        assert(m0[i as int].0 != m0[w].0);
                    }
                    assert(w == i as int);
                    lemma_ids_remove_id_wf(m0, id@);
                }
                let pair = self.pairs.remove(i);
                proof {
                    assert(self@ =~= m0.remove(i as int));
                }
                return Option::Some(pair.1);
            }
            i = i + 1;
        }
        Option::None
    }

    /// The node registered under `id`.
    pub fn node(&self, id: &String) -> (r: Option<NodeRef>)
        requires
            self.wf(),
        ensures
            match r {
                Option::Some(n) => ids_has_id(self@, id@) && n == ids_node_of(self@, id@),
                Option::None => !ids_has_id(self@, id@),
            },
    {
        let mut i: usize = 0;
        while i < self.pairs.len()
            invariant
                ids_wf(self@),
                i <= self@.len(),
                self@.len() == self.pairs@.len(),
                forall|j: int| 0 <= j < i ==> self@[j].0 != id@,
                forall|j: int|
                    0 <= j < self@.len() ==> self@[j] == (
                        #[trigger] self.pairs@[j].0@,
                        self.pairs@[j].1,
                    ),
            decreases self@.len() - i,
        {
            if self.pairs[i].0 == *id {
                proof {
                    let w = ids_id_index(self@, id@);
                    assert(self@[i as int].0 == id@);
                    assert(ids_has_id(self@, id@));
                    assert(0 <= w < self@.len() && self@[w].0 == id@);
                    if w < i {
                        assert(self@[w].0 != self@[i as int].0);
                    }
                    if w > i {
                        assert(self@[i as int].0 != self@[w].0);
                    }
                    assert(w == i as int);
                }
                return Option::Some(self.pairs[i].1);
            }
            i = i + 1;
        }
        Option::None
    }

    /// The id the handle `node` is registered under.
    pub fn id(&self, node: &NodeRef) -> (r: Option<&String>)
        requires
            self.wf(),
        ensures
            match r {
                Option::Some(id) => ids_has_node(self@, *node) && id@ == ids_id_of(self@, *node),
                Option::None => !ids_has_node(self@, *node),
            },
    {
        let mut i: usize = 0;
        while i < self.pairs.len()
            invariant
                ids_wf(self@),
                i <= self@.len(),
                self@.len() == self.pairs@.len(),
                forall|j: int| 0 <= j < i ==> self@[j].1 != *node,
                forall|j: int|
                    0 <= j < self@.len() ==> self@[j] == (
                        #[trigger] self.pairs@[j].0@,
                        self.pairs@[j].1,
                    ),
            decreases self@.len() - i,
        {
            if self.pairs[i].1 == *node {
                proof {
                    let w = ids_node_index(self@, *node);
                    assert(self@[i as int].1 == *node);
                    assert(ids_has_node(self@, *node));
                    assert(0 <= w < self@.len() && self@[w].1 == *node);
                    if w < i {
                        assert(self@[w].1 != self@[i as int].1);
                    }
                    if w > i {
                        assert(self@[i as int].1 != self@[w].1);
                    }
                    assert(w == i as int);
                }
                return Option::Some(&self.pairs[i].0);
            }
            i = i + 1;
        }
        Option::None
    }
}

/// The identity map as the engine holds it; one owner, narrow methods.
pub struct NodesIds {
    inner: NodesIdsInner,
}

impl View for NodesIds {
    type V = IdsM;

    closed spec fn view(&self) -> IdsM {
        self.inner@
    }
}

impl NodesIds {
    /// The map is a bijection.
    pub open spec fn wf(self) -> bool {
        ids_wf(self@)
    }

    /// An empty map.
    pub fn new() -> (r: NodesIds)
        ensures
            r@ == Seq::<(Seq<char>, NodeRef)>::empty(),
    {
        NodesIds { inner: NodesIdsInner::new() }
    }

    /// How many pairs are registered.
    pub fn len(&self) -> (r: usize)
        ensures
            r == self@.len(),
    {
        self.inner.len()
    }

    /// Registers `node` under `id`, overwriting both directions.
    pub fn insert(&mut self, id: String, node: NodeRef)
        requires
            old(self).wf(),
        ensures
            final(self)@ == ids_insert(old(self)@, id@, node),
            final(self).wf(),
    {
        self.inner.insert(id, node);
    }

    /// Unregisters the handle `node` and hands its id back.
    pub fn remove_node(&mut self, node: &NodeRef) -> (r: Option<String>)
        requires
            old(self).wf(),
        ensures
            final(self)@ == ids_remove_node(old(self)@, *node),
            final(self).wf(),
            match r {
                Option::Some(id) => ids_has_node(old(self)@, *node) && id@ == ids_id_of(
                    old(self)@,
                    *node,
                ),
                Option::None => !ids_has_node(old(self)@, *node),
            },
    {
        self.inner.remove_node(node)
    }

    /// Unregisters the id `id` and hands its node back.
    pub fn remove_id(&mut self, id: &String) -> (r: Option<NodeRef>)
        requires
            old(self).wf(),
        ensures
            final(self)@ == ids_remove_id(old(self)@, id@),
            final(self).wf(),
            match r {
                Option::Some(n) => ids_has_id(old(self)@, id@) && n == ids_node_of(
                    old(self)@,
                    id@,
                ),
                Option::None => !ids_has_id(old(self)@, id@),
            },
    {
        self.inner.remove_id(id)
    }

    /// The node registered under `id`.
    pub fn node(&self, id: &String) -> (r: Option<NodeRef>)
        requires
            self.wf(),
        ensures
            match r {
                Option::Some(n) => ids_has_id(self@, id@) && n == ids_node_of(self@, id@),
                Option::None => !ids_has_id(self@, id@),
            },
    {
        self.inner.node(id)
    }

    /// The id the handle `node` is registered under.
    pub fn id(&self, node: &NodeRef) -> (r: Option<&String>)
        requires
            self.wf(),
        ensures
            match r {
                Option::Some(id) => ids_has_node(self@, *node) && id@ == ids_id_of(self@, *node),
                Option::None => !ids_has_node(self@, *node),
            },
    {
        self.inner.id(node)
    }
}

} // verus!
