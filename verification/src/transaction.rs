//! Transactions: ordered batches of patches keyed by virtual-node id,
//! removal entries, and event subscription changes, as the external differ
//! hands them in.

use vstd::prelude::*;
use crate::prop::{props_m, props_wf, Props, PropsM};
use crate::raw_view::{view_m, RawView, ViewM};

verus! {

broadcast use vstd::std_specs::vec::group_vec_axioms;

/// The mathematical shape of a keyed reorder: positions to take out of the
/// child snapshot (each with the key stashed for reuse), and keyed slots to
/// put back.
#[verifier::ext_equal]
pub ghost struct OrderM {
    pub removes: Seq<(nat, Option<Seq<char>>)>,
    pub inserts: Seq<(Option<Seq<char>>, nat)>,
}

/// The mathematical shape of one patch.
#[verifier::ext_equal]
pub ghost enum PatchM {
    Mount(ViewM),
    Insert(Seq<char>, nat, ViewM),
    Replace(ViewM, ViewM),
    Order(OrderM),
    Props(PropsM, PropsM),
}

/// The mathematical shape of a transaction.
#[verifier::ext_equal]
pub ghost struct TransactionM {
    pub patches: Seq<(Seq<char>, Seq<PatchM>)>,
    pub removes: Seq<(Seq<char>, ViewM)>,
    pub events: Seq<(Seq<char>, Seq<(Seq<char>, bool)>)>,
}

/// A keyed reorder of one node's children: a remove phase over a child
/// snapshot, then an insert phase that puts stashed keyed nodes back.
pub struct Order {
    pub removes: Vec<(usize, Option<String>)>,
    pub inserts: Vec<(Option<String>, usize)>,
}

/// One patch, keyed by the id it applies to.
pub enum Patch {
    Mount(RawView),
    Insert(String, usize, RawView),
    Replace(RawView, RawView),
    Order(Order),
    Props(Props, Props),
}

/// An ordered batch of patches, removals and event subscription changes.
pub struct Transaction {
    pub patches: Vec<(String, Vec<Patch>)>,
    pub removes: Vec<(String, RawView)>,
    pub events: Vec<(String, Vec<(String, bool)>)>,
}

/// The model of a reorder.
pub open spec fn order_m(o: Order) -> OrderM {
    OrderM {
        removes: Seq::new(
            o.removes@.len(),
            |i: int|
                if 0 <= i < o.removes@.len() {
                    (
                        o.removes@[i].0 as nat,
                        match o.removes@[i].1 {
                            Option::Some(k) => Option::Some(k@),
                            Option::None => Option::None,
                        },
                    )
                } else {
                    (0nat, Option::None)
                },
        ),
        inserts: Seq::new(
            o.inserts@.len(),
            |i: int|
                if 0 <= i < o.inserts@.len() {
                    (
                        match o.inserts@[i].0 {
                            Option::Some(k) => Option::Some(k@),
                            Option::None => Option::None,
                        },
                        o.inserts@[i].1 as nat,
                    )
                } else {
                    (Option::None, 0nat)
                },
        ),
    }
}

impl View for Order {
    type V = OrderM;

    open spec fn view(&self) -> OrderM {
        order_m(*self)
    }
}

/// The model of one patch.
pub open spec fn patch_m(p: Patch) -> PatchM {
    match p {
        Patch::Mount(v) => PatchM::Mount(view_m(v)),
        Patch::Insert(id, index, v) => PatchM::Insert(id@, index as nat, view_m(v)),
        Patch::Replace(prev, next) => PatchM::Replace(view_m(prev), view_m(next)),
        Patch::Order(o) => PatchM::Order(order_m(o)),
        Patch::Props(prev, diff) => PatchM::Props(props_m(prev), props_m(diff)),
    }
}

impl View for Patch {
    type V = PatchM;

    open spec fn view(&self) -> PatchM {
        patch_m(*self)
    }
}

/// The model of a transaction.
pub open spec fn transaction_m(t: Transaction) -> TransactionM {
    TransactionM {
        patches: Seq::new(
            t.patches@.len(),
            |i: int|
                if 0 <= i < t.patches@.len() {
                    (
                        t.patches@[i].0@,
                        Seq::new(
                            t.patches@[i].1@.len(),
                            |j: int|
                                if 0 <= j < t.patches@[i].1@.len() {
                                    patch_m(t.patches@[i].1@[j])
                                } else {
                                    PatchM::Mount(ViewM::Text(Seq::<char>::empty()))
                                },
                        ),
                    )
                } else {
                    (Seq::<char>::empty(), Seq::<PatchM>::empty())
                },
        ),
        removes: Seq::new(
            t.removes@.len(),
            |i: int|
                if 0 <= i < t.removes@.len() {
                    (t.removes@[i].0@, view_m(t.removes@[i].1))
                } else {
                    (Seq::<char>::empty(), ViewM::Text(Seq::<char>::empty()))
                },
        ),
        events: Seq::new(
            t.events@.len(),
            |i: int|
                if 0 <= i < t.events@.len() {
                    (
                        t.events@[i].0@,
                        Seq::new(
                            t.events@[i].1@.len(),
                            |j: int|
                                if 0 <= j < t.events@[i].1@.len() {
                                    (t.events@[i].1@[j].0@, t.events@[i].1@[j].1)
                                } else {
                                    (Seq::<char>::empty(), false)
                                },
                        ),
                    )
                } else {
                    (Seq::<char>::empty(), Seq::<(Seq<char>, bool)>::empty())
                },
        ),
    }
}

impl View for Transaction {
    type V = TransactionM;

    open spec fn view(&self) -> TransactionM {
        transaction_m(*self)
    }
}

impl PatchM {
    /// Every property map carried by this patch has distinct keys.
    pub open spec fn wf(self) -> bool {
        match self {
            PatchM::Mount(v) => v.wf(),
            PatchM::Insert(_, _, v) => v.wf(),
            PatchM::Replace(prev, next) => prev.wf() && next.wf(),
            PatchM::Order(_) => true,
            PatchM::Props(prev, diff) => props_wf(prev) && props_wf(diff),
        }
    }
}

impl TransactionM {
    /// Every property map reached through this transaction has distinct
    /// keys. This holds of every transaction whose maps were built through
    /// `Props` methods.
    pub open spec fn wf(self) -> bool {
        &&& forall|i: int, j: int|
            0 <= i < self.patches.len() && 0 <= j < self.patches[i].1.len()
                ==> (#[trigger] self.patches[i].1[j]).wf()
        &&& forall|i: int| 0 <= i < self.removes.len() ==> (#[trigger] self.removes[i]).1.wf()
    }
}

impl Order {
    /// A reorder from its remove and insert phases.
    pub fn new(removes: Vec<(usize, Option<String>)>, inserts: Vec<(Option<String>, usize)>) -> (r:
        Order)
        ensures
            r == (Order { removes, inserts }),
    {
        Order { removes, inserts }
    }

    /// Whether the reorder does nothing.
    pub fn is_empty(&self) -> (r: bool)
        ensures
            r == (self@.removes.len() == 0 && self@.inserts.len() == 0),
    {
        self.removes.len() == 0 && self.inserts.len() == 0
    }
}

impl Transaction {
    /// An empty transaction.
    pub fn new() -> (r: Transaction)
        ensures
            r@.patches.len() == 0,
            r@.removes.len() == 0,
            r@.events.len() == 0,
    {
        Transaction { patches: Vec::new(), removes: Vec::new(), events: Vec::new() }
    }

    /// Whether the transaction does nothing.
    pub fn is_empty(&self) -> (r: bool)
        ensures
            r == (self@.patches.len() == 0 && self@.removes.len() == 0 && self@.events.len()
                == 0),
    {
        self.patches.len() == 0 && self.removes.len() == 0 && self.events.len() == 0
    }

    /// Adds one patch under `id`, after any patches already queued there.
    #[verifier::loop_isolation(false)]
    pub fn append(&mut self, id: String, patch: Patch)
        ensures
            final(self)@.removes == old(self)@.removes,
            final(self)@.events == old(self)@.events,
            final(self)@.patches == txn_append(old(self)@.patches, id@, patch@),
    {
        let ghost m0 = self@.patches;
        let mut i: usize = 0;
        while i < self.patches.len()
            invariant
                self@ == old(self)@,
                i <= self.patches@.len(),
                forall|j: int| 0 <= j < i ==> m0[j].0 != id@,
            decreases self.patches@.len() - i,
        {
            if self.patches[i].0 == id {
                proof {
                    assert(m0[i as int].0 == id@);
                    lemma_txn_first(m0, id@, i as int);
                }
                let ghost p0 = self.patches@;
                let mut entry = self.patches.remove(i);
                entry.1.push(patch);
                self.patches.insert(i, entry);
                proof {
                    assert(self.patches@ =~= p0.update(i as int, self.patches@[i as int]));
                    assert(self@.patches =~~= txn_append(m0, id@, patch@));
                    assert(self@.removes =~~= old(self)@.removes);
                    assert(self@.events =~~= old(self)@.events);
                }
                return ;
            }
            i = i + 1;
        }
        proof {
            lemma_txn_first_none(m0, id@);
        }
        let mut list: Vec<Patch> = Vec::new();
        list.push(patch);
        self.patches.push((id, list));
        proof {
            assert(self@.patches =~~= txn_append(m0, id@, patch@));
            assert(self@.removes =~~= old(self)@.removes);
            assert(self@.events =~~= old(self)@.events);
        }
    }

    /// Queues a first materialization of `view` under `id`.
    pub fn mount(&mut self, id: &String, view: RawView)
        ensures
            final(self)@.removes == old(self)@.removes,
            final(self)@.events == old(self)@.events,
            final(self)@.patches == txn_append(
                old(self)@.patches,
                id@,
                PatchM::Mount(view_m(view)),
            ),
    {
        self.append(id.clone(), Patch::Mount(view));
    }

    /// Queues the removal of the subtree `view` at `id`.
    pub fn remove(&mut self, id: &String, view: RawView)
        ensures
            final(self)@.patches == old(self)@.patches,
            final(self)@.events == old(self)@.events,
            final(self)@.removes == old(self)@.removes.push((id@, view_m(view))),
    {
        self.removes.push((id.clone(), view));
        proof {
            assert(final(self)@.patches =~~= old(self)@.patches);
            assert(final(self)@.events =~~= old(self)@.events);
            assert(final(self)@.removes =~~= old(self)@.removes.push((id@, view_m(view))));
        }
    }

    /// Queues an event subscription change for `id`: subscribe when
    /// `subscribe` is set, unsubscribe otherwise.
    pub fn set_event(&mut self, id: &String, name: &String, subscribe: bool)
        ensures
            final(self)@.patches == old(self)@.patches,
            final(self)@.removes == old(self)@.removes,
            final(self)@.events == old(self)@.events.push(
                (id@, seq![(name@, subscribe)]),
            ),
    {
        let mut list: Vec<(String, bool)> = Vec::new();
        list.push((name.clone(), subscribe));
        self.events.push((id.clone(), list));
        proof {
            assert(final(self)@.patches =~~= old(self)@.patches);
            assert(final(self)@.removes =~~= old(self)@.removes);
            assert(final(self)@.events =~~= old(self)@.events.push((id@, seq![(name@, subscribe)])));
        }
    }
}

/// The position of the first patch list keyed by `k`, or a negative value
/// when there is none.
pub open spec fn txn_key_index(m: Seq<(Seq<char>, Seq<PatchM>)>, k: Seq<char>) -> int
    decreases m.len(),
{
    if m.len() == 0 {
        -1
    } else if m[0].0 == k {
        0
    } else {
        let r = txn_key_index(m.drop_first(), k);
        if r < 0 {
            -1
        } else {
            r + 1
        }
    }
}

/// The patch lists after queueing `p` under `k`: appended to the first
/// matching list, or as a fresh entry at the end.
pub open spec fn txn_append(m: Seq<(Seq<char>, Seq<PatchM>)>, k: Seq<char>, p: PatchM) -> Seq<
    (Seq<char>, Seq<PatchM>),
> {
    let i = txn_key_index(m, k);
    if i >= 0 {
        m.update(i, (k, m[i].1.push(p)))
    } else {
        m.push((k, seq![p]))
    }
}

/// When `k` keys position `i` and nothing earlier, the first match is `i`.
proof fn lemma_txn_first(m: Seq<(Seq<char>, Seq<PatchM>)>, k: Seq<char>, i: int)
    requires
        0 <= i < m.len(),
        m[i].0 == k,
        forall|j: int| 0 <= j < i ==> m[j].0 != k,
    ensures
        txn_key_index(m, k) == i,
    decreases i,
{
    if i == 0 {
    } else {
        assert(m[0].0 != k);
        let t = m.drop_first();
        assert forall|j: int| 0 <= j < i - 1 implies t[j].0 != k by {
            assert(t[j] == m[j + 1]);
        }
        assert(t[i - 1] == m[i]);
        lemma_txn_first(t, k, i - 1);
    }
}

/// When `k` keys nothing, there is no first match.
proof fn lemma_txn_first_none(m: Seq<(Seq<char>, Seq<PatchM>)>, k: Seq<char>)
    requires
        forall|j: int| 0 <= j < m.len() ==> m[j].0 != k,
    ensures
        txn_key_index(m, k) < 0,
    decreases m.len(),
{
    if m.len() > 0 {
        let t = m.drop_first();
        assert forall|j: int| 0 <= j < t.len() implies t[j].0 != k by {
            assert(t[j] == m[j + 1]);
        }
        lemma_txn_first_none(t, k);
    }
}

} // verus!
