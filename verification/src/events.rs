//! Event delegation: a reference count per event name, with one native
//! document-level listener attached while the count is positive.

use vstd::prelude::*;
use crate::dom::{Dom, DomM, NodeRef};
use crate::dom_event::DOMEvent;
use crate::nodes_ids::{ids_has_node, ids_id_of, NodesIds};
use crate::prop::Props;

verus! {

broadcast use vstd::std_specs::vec::group_vec_axioms;

/// The mathematical shape of the delegation table: event names with their
/// subscriber counts, every count positive, every name unique.
pub type EventsM = Seq<(Seq<char>, nat)>;

/// Whether the event name `k` has subscribers.
pub open spec fn ev_has(m: EventsM, k: Seq<char>) -> bool {
    exists|i: int| 0 <= i < m.len() && m[i].0 == k
}

/// The position of the event name `k`.
pub open spec fn ev_index(m: EventsM, k: Seq<char>) -> int {
    choose|i: int| 0 <= i < m.len() && m[i].0 == k
}

/// The subscriber count of the event name `k`.
pub open spec fn ev_count(m: EventsM, k: Seq<char>) -> nat {
    m[ev_index(m, k)].1
}

/// The table after one more subscriber for `k`; the count tops out at the
/// machine word.
pub open spec fn ev_bump(m: EventsM, k: Seq<char>) -> EventsM {
    let i = ev_index(m, k);
    m.update(
        i,
        (
            k,
            if m[i].1 < usize::MAX {
                (m[i].1 + 1) as nat
            } else {
                m[i].1
            },
        ),
    )
}

/// The table after one subscriber of `k` leaves: the entry goes away when
/// the count reaches zero.
pub open spec fn ev_drop(m: EventsM, k: Seq<char>) -> EventsM {
    let i = ev_index(m, k);
    if m[i].1 <= 1 {
        m.remove(i)
    } else {
        m.update(i, (k, (m[i].1 - 1) as nat))
    }
}

/// Names are unique and every count is positive.
pub open spec fn ev_wf(m: EventsM) -> bool {
    &&& forall|i: int, j: int| 0 <= i < j < m.len() ==> m[i].0 != m[j].0
    &&& forall|i: int| 0 <= i < m.len() ==> 1 <= (#[trigger] m[i]).1 <= usize::MAX
}

/// The event delegation layer: how many virtual nodes subscribe to each
/// event name. The native listener itself lives on the document.
pub struct Events {
    listening: Vec<(String, usize)>,
}

/// The model of the delegation table.
pub closed spec fn events_m(e: Events) -> EventsM {
    Seq::new(
        e.listening@.len(),
        |i: int|
            if 0 <= i < e.listening@.len() {
                (e.listening@[i].0@, e.listening@[i].1 as nat)
            } else {
                (Seq::<char>::empty(), 0nat)
            },
    )
}

impl View for Events {
    type V = EventsM;

    closed spec fn view(&self) -> EventsM {
        events_m(*self)
    }
}

impl Events {
    /// Names are unique and every count is positive.
    pub open spec fn wf(self) -> bool {
        ev_wf(self@)
    }

    /// A table with no subscribers.
    pub fn new() -> (r: Events)
        ensures
            r@ == Seq::<(Seq<char>, nat)>::empty(),
    {
        let r = Events { listening: Vec::new() };
        proof {
            assert(r@ =~= Seq::<(Seq<char>, nat)>::empty());
        }
        r
    }

    /// Subscribes the node `_id` to `name`. The first subscriber attaches
    /// the one native listener; later ones only raise the count.
    pub fn listen(&mut self, name: &String, _id: &String, dom: &mut Dom)
        requires
            old(self).wf(),
            old(dom)@.wf(),
        ensures
            final(self).wf(),
            final(dom)@.wf(),
            ev_has(old(self)@, name@) ==> final(self)@ == ev_bump(old(self)@, name@)
                && final(dom)@ == old(dom)@,
            !ev_has(old(self)@, name@) ==> final(self)@ == old(self)@.push((name@, 1nat))
                && final(dom)@ == (DomM {
                listeners: old(dom)@.listeners.push(name@),
                ..old(dom)@
            }),
    {
        let ghost m0 = self@;
        let mut i: usize = 0;
        while i < self.listening.len()
            invariant
                m0 == self@,
                m0 == old(self)@,
                dom == old(dom),
                old(dom)@.wf(),
                ev_wf(m0),
                i <= self@.len(),
                self@.len() == self.listening@.len(),
                forall|j: int| 0 <= j < i ==> self@[j].0 != name@,
                forall|j: int|
                    0 <= j < self@.len() ==> self@[j] == (
                        #[trigger] self.listening@[j].0@,
                        self.listening@[j].1 as nat,
                    ),
            decreases self@.len() - i,
        {
            if self.listening[i].0 == *name {
                let ghost w = ev_index(m0, name@);
                proof {
                    assert(m0[i as int].0 == name@);
                    assert(ev_has(m0, name@));
                    assert(0 <= w < m0.len() && m0[w].0 == name@);
                    if w < i {
                        assert(m0[w].0 != m0[i as int].0);
                    }
                    if w > i {
                        assert(m0[i as int].0 != m0[w].0);
                    }
                    assert(w == i as int);
                }
                let count = self.listening[i].1;
                let bumped = if count < usize::MAX {
                    count + 1
                } else {
                    count
                };
                let key = self.listening.remove(i).0;
                self.listening.insert(i, (key, bumped));
                proof {
                    assert(self@ =~= ev_bump(m0, name@));
                    assert forall|a: int, b: int|
                        0 <= a < b < self@.len() implies self@[a].0 != self@[b].0 by {
                        assert(m0[a].0 != m0[b].0);
                    }
                }
                return ;
            }
            i = i + 1;
        }
        self.listening.push((name.clone(), 1));
        dom.add_listener(name.clone());
        proof {
            assert(self@ =~= m0.push((name@, 1nat)));
            assert forall|a: int, b: int|
                0 <= a < b < self@.len() implies self@[a].0 != self@[b].0 by {
                if b == m0.len() {
                    assert(self@[a].0 == m0[a].0);
                } else {
                    assert(m0[a].0 != m0[b].0);
                }
            }
        }
    }

    /// Unsubscribes the node `_id` from `name`. The last subscriber to
    /// leave detaches the native listener; an unknown name is a no-op.
    pub fn unlisten(&mut self, name: &String, _id: &String, dom: &mut Dom)
        requires
            old(self).wf(),
            old(dom)@.wf(),
        ensures
            final(self).wf(),
            final(dom)@.wf(),
            !ev_has(old(self)@, name@) ==> final(self)@ == old(self)@ && final(dom)@ == old(dom)@,
            ev_has(old(self)@, name@) && ev_count(old(self)@, name@) > 1 ==> final(self)@
                == ev_drop(old(self)@, name@) && final(dom)@ == old(dom)@,
            ev_has(old(self)@, name@) && ev_count(old(self)@, name@) == 1 ==> final(self)@
                == ev_drop(old(self)@, name@) && final(dom)@ == (DomM {
                listeners: crate::dom::seq_remove_first(old(dom)@.listeners, name@),
                ..old(dom)@
            }),
    {
        let ghost m0 = self@;
        let mut i: usize = 0;
        while i < self.listening.len()
            invariant
                m0 == self@,
                m0 == old(self)@,
                dom == old(dom),
                old(dom)@.wf(),
                ev_wf(m0),
                i <= self@.len(),
                self@.len() == self.listening@.len(),
                forall|j: int| 0 <= j < i ==> self@[j].0 != name@,
                forall|j: int|
                    0 <= j < self@.len() ==> self@[j] == (
                        #[trigger] self.listening@[j].0@,
                        self.listening@[j].1 as nat,
                    ),
            decreases self@.len() - i,
        {
            if self.listening[i].0 == *name {
                let ghost w = ev_index(m0, name@);
                proof {
                    assert(m0[i as int].0 == name@);
                    assert(ev_has(m0, name@));
                    assert(0 <= w < m0.len() && m0[w].0 == name@);
                    if w < i {
                        assert(m0[w].0 != m0[i as int].0);
                    }
                    if w > i {
                        assert(m0[i as int].0 != m0[w].0);
                    }
                    assert(w == i as int);
                }
                let count = self.listening[i].1;
                if count <= 1 {
                    self.listening.remove(i);
                    dom.remove_listener(name);
                    proof {
                        assert(self@ =~= ev_drop(m0, name@));
                        assert forall|a: int, b: int|
                            0 <= a < b < self@.len() implies self@[a].0 != self@[b].0 by {
                            let a0 = if a < i { a } else { a + 1 };
                            let b0 = if b < i { b } else { b + 1 };
                            assert(self@[a] == m0[a0]);
                            assert(self@[b] == m0[b0]);
                            assert(m0[a0].0 != m0[b0].0);
                        }
                        assert forall|a: int| 0 <= a < self@.len() implies 1 <= (
                        #[trigger] self@[a]).1 <= usize::MAX by {
                            let a0 = if a < i { a } else { a + 1 };
                            assert(self@[a] == m0[a0]);
                        }
                    }
                } else {
                    let key = self.listening.remove(i).0;
                    self.listening.insert(i, (key, count - 1));
                    proof {
                        assert(self@ =~= ev_drop(m0, name@));
                        assert forall|a: int, b: int|
                            0 <= a < b < self@.len() implies self@[a].0 != self@[b].0 by {
                            assert(m0[a].0 != m0[b].0);
                        }
                    }
                }
                return ;
            }
            i = i + 1;
        }
    }

    /// Routes one fired native event: resolves the target to its id and,
    /// when it is known, synthesizes the event for the external
    /// dispatcher. An unresolvable target is silently dropped.
    pub fn handle(nodes_ids: &NodesIds, target: NodeRef, name: String, data: Props) -> (r: Option<
        (String, DOMEvent),
    >)
        requires
            nodes_ids.wf(),
        ensures
            match r {
                Option::Some(pair) => ids_has_node(nodes_ids@, target) && pair.0@ == ids_id_of(
                    nodes_ids@,
                    target,
                ) && pair.1.spec_name() == name@ && pair.1.spec_data() == data@
                    && pair.1.spec_propagation(),
                Option::None => !ids_has_node(nodes_ids@, target),
            },
    {
        match nodes_ids.id(&target) {
            Option::Some(id) => {
                let id = id.clone();
                Option::Some((id, DOMEvent::new(name, data)))
            },
            Option::None => Option::None,
        }
    }
}

} // verus!
