//! The document model: an arena of element nodes with parent/child links,
//! text content, attribute/style/property sinks, and the set of event names
//! with a document-level native listener attached.

use vstd::prelude::*;
use crate::prop::{lemma_props_remove_wf, lemma_props_set_wf, prop_m, props_has_key, props_m, props_remove, props_set, props_value, props_wf, Prop, PropM, Props, PropsM};

verus! {

broadcast use vstd::std_specs::vec::group_vec_axioms;

/// A handle to one live node. Two handles name the same node exactly when
/// they are equal; a handle stays valid for the life of the document.
#[derive(Clone, Copy, PartialEq, Eq, Structural, Debug)]
pub struct NodeRef {
    pub raw: usize,
}

impl NodeRef {
    /// The arena slot this handle names.
    pub open spec fn index(self) -> int {
        self.raw as int
    }

    /// The raw arena slot of this handle.
    pub fn as_raw(&self) -> (r: usize)
        ensures
            r == self.index(),
    {
        self.raw
    }
}

/// The mathematical shape of one node.
#[verifier::ext_equal]
pub ghost struct NodeM {
    pub kind: Seq<char>,
    pub text: Seq<char>,
    pub attributes: PropsM,
    pub styles: PropsM,
    pub properties: PropsM,
    pub children: Seq<int>,
    pub parent: Option<int>,
}

impl NodeM {
    /// A fresh element of tag `kind`: no text, no attributes, no children,
    /// detached.
    pub open spec fn blank(kind: Seq<char>) -> NodeM {
        NodeM {
            kind: kind,
            text: Seq::empty(),
            attributes: Seq::empty(),
            styles: Seq::empty(),
            properties: Seq::empty(),
            children: Seq::empty(),
            parent: Option::None,
        }
    }

    /// The three property sinks all have distinct keys.
    pub open spec fn maps_wf(self) -> bool {
        props_wf(self.attributes) && props_wf(self.styles) && props_wf(self.properties)
    }
}

/// The mathematical shape of the document: every node ever created (an
/// arena indexed by handle), and the event names that currently carry a
/// document-level native listener, in attachment order.
#[verifier::ext_equal]
pub ghost struct DomM {
    pub nodes: Seq<NodeM>,
    pub listeners: Seq<Seq<char>>,
}

impl DomM {
    /// Whether `i` names a node of this document.
    pub open spec fn valid(self, i: int) -> bool {
        0 <= i < self.nodes.len()
    }

    /// The children of node `i`, in document order.
    pub open spec fn children_of(self, i: int) -> Seq<int> {
        self.nodes[i].children
    }

    /// The parent of node `i`, if it is attached.
    pub open spec fn parent_of(self, i: int) -> Option<int> {
        self.nodes[i].parent
    }

    /// Parent/child consistency: every child link points at a node whose
    /// parent link points back, every parent link is mirrored by a child
    /// link, no child appears twice under one parent, and the property
    /// sinks of every node have distinct keys.
    pub open spec fn wf(self) -> bool {
        &&& forall|p: int, k: int|
            #![trigger self.children_of(p)[k]]
            self.valid(p) && 0 <= k < self.children_of(p).len() ==> self.valid(
                self.children_of(p)[k],
            ) && self.parent_of(self.children_of(p)[k]) == Option::Some(p)
        &&& forall|c: int|
            #![trigger self.parent_of(c)]
            self.valid(c) && self.parent_of(c) is Some ==> self.valid(self.parent_of(c)->0)
                && self.children_of(self.parent_of(c)->0).contains(c)
        &&& forall|p: int, k1: int, k2: int|
            #![trigger self.children_of(p)[k1], self.children_of(p)[k2]]
            self.valid(p) && 0 <= k1 < k2 < self.children_of(p).len() ==> self.children_of(p)[k1]
                != self.children_of(p)[k2]
        &&& forall|i: int| #![trigger self.nodes[i]] self.valid(i) ==> self.nodes[i].maps_wf()
    }

    /// The document with node `i` replaced.
    pub open spec fn upd_node(self, i: int, n: NodeM) -> DomM {
        DomM { nodes: self.nodes.update(i, n), ..self }
    }

    /// The document after creating a fresh element of tag `kind`.
    pub open spec fn create_m(self, kind: Seq<char>) -> DomM {
        DomM { nodes: self.nodes.push(NodeM::blank(kind)), ..self }
    }

    /// The document after setting the text content of node `i`.
    pub open spec fn set_text_m(self, i: int, text: Seq<char>) -> DomM {
        self.upd_node(i, NodeM { text: text, ..self.nodes[i] })
    }

    /// The document after inserting detached node `c` among the children of
    /// `p` at position `pos`.
    pub open spec fn insert_child_m(self, p: int, c: int, pos: int) -> DomM {
        let d1 = self.upd_node(
            p,
            NodeM { children: self.nodes[p].children.insert(pos, c), ..self.nodes[p] },
        );
        d1.upd_node(c, NodeM { parent: Option::Some(p), ..d1.nodes[c] })
    }

    /// The document after appending detached node `c` as the last child of
    /// `p`.
    pub open spec fn append_child_m(self, p: int, c: int) -> DomM {
        self.insert_child_m(p, c, self.nodes[p].children.len() as int)
    }

    /// The document after detaching `c` from `p`; unchanged when `c` is not
    /// a child of `p`.
    pub open spec fn remove_child_m(self, p: int, c: int) -> DomM {
        if self.children_of(p).contains(c) {
            let k = self.children_of(p).index_of(c);
            let d1 = self.upd_node(
                p,
                NodeM { children: self.nodes[p].children.remove(k), ..self.nodes[p] },
            );
            d1.upd_node(c, NodeM { parent: Option::None, ..d1.nodes[c] })
        } else {
            self
        }
    }

    /// The document after swapping child `prev` of `p` for the detached
    /// node `next`, in place.
    pub open spec fn replace_child_m(self, p: int, next: int, prev: int) -> DomM {
        let k = self.children_of(p).index_of(prev);
        let d1 = self.upd_node(
            p,
            NodeM { children: self.nodes[p].children.update(k, next), ..self.nodes[p] },
        );
        let d2 = d1.upd_node(next, NodeM { parent: Option::Some(p), ..d1.nodes[next] });
        d2.upd_node(prev, NodeM { parent: Option::None, ..d2.nodes[prev] })
    }
}

/// The model of one node.
pub closed spec fn node_m(n: DomNode) -> NodeM {
    NodeM {
        kind: n.kind@,
        text: n.text@,
        attributes: props_m(n.attributes),
        styles: props_m(n.styles),
        properties: props_m(n.properties),
        children: Seq::new(
            n.children@.len(),
            |i: int|
                if 0 <= i < n.children@.len() {
                    n.children@[i].index()
                } else {
                    0int
                },
        ),
        parent: match n.parent_ref {
            Option::Some(p) => Option::Some(p.index()),
            Option::None => Option::None,
        },
    }
}

/// One node of the document arena.
pub struct DomNode {
    kind: String,
    text: String,
    attributes: Props,
    styles: Props,
    properties: Props,
    children: Vec<NodeRef>,
    parent_ref: Option<NodeRef>,
}

/// The document: an arena of nodes and the attached native listeners.
pub struct Dom {
    nodes: Vec<DomNode>,
    listeners: Vec<String>,
}

/// The model of the document.
pub closed spec fn dom_m(d: Dom) -> DomM {
    DomM {
        nodes: Seq::new(
            d.nodes@.len(),
            |i: int|
                if 0 <= i < d.nodes@.len() {
                    node_m(d.nodes@[i])
                } else {
                    NodeM::blank(Seq::empty())
                },
        ),
        listeners: Seq::new(
            d.listeners@.len(),
            |i: int|
                if 0 <= i < d.listeners@.len() {
                    d.listeners@[i]@
                } else {
                    Seq::empty()
                },
        ),
    }
}

impl View for Dom {
    type V = DomM;

    closed spec fn view(&self) -> DomM {
        dom_m(*self)
    }
}

/// How often `x` occurs in `s`.
pub open spec fn count_matches(s: Seq<Seq<char>>, x: Seq<char>) -> nat
    decreases s.len(),
{
    if s.len() == 0 {
        0
    } else {
        count_matches(s.drop_last(), x) + if s.last() == x {
            1nat
        } else {
            0nat
        }
    }
}

/// `s` with the first occurrence of `x` removed; `s` itself when absent.
pub open spec fn seq_remove_first(s: Seq<Seq<char>>, x: Seq<char>) -> Seq<Seq<char>> {
    if first_index_of(s, x) >= 0 {
        s.remove(first_index_of(s, x))
    } else {
        s
    }
}

impl Dom {
    /// An empty document: no nodes, no listeners.
    pub fn new() -> (r: Dom)
        ensures
            r@ == (DomM { nodes: Seq::empty(), listeners: Seq::empty() }),
            r@.wf(),
    {
        let r = Dom { nodes: Vec::new(), listeners: Vec::new() };
        proof {
            assert(r@ =~~= (DomM { nodes: Seq::empty(), listeners: Seq::empty() }));
        }
        r
    }

    /// The number of nodes ever created.
    pub fn node_count(&self) -> (r: usize)
        ensures
            r == self@.nodes.len(),
    {
        self.nodes.len()
    }

    /// Creates a fresh, detached element with tag `kind`.
    pub fn create_element(&mut self, kind: &String) -> (r: NodeRef)
        requires
            old(self)@.wf(),
        ensures
            final(self)@ == old(self)@.create_m(kind@),
            final(self)@.wf(),
            r.index() == old(self)@.nodes.len(),
            final(self)@.valid(r.index()),
    {
        let raw = self.nodes.len();
        self.nodes.push(
            DomNode {
                kind: kind.clone(),
                text: String::new(),
                attributes: Props::new(),
                styles: Props::new(),
                properties: Props::new(),
                children: Vec::new(),
                parent_ref: Option::None,
            },
        );
        let ghost d0 = old(self)@;
        proof {
            assert(node_m(self.nodes@.last()) =~~= NodeM::blank(kind@));
            assert(self@ =~~= d0.create_m(kind@));
            lemma_wf_grow(d0, NodeM::blank(kind@));
        }
        NodeRef { raw }
    }

    /// Sets the text content of node `n`.
    pub fn set_text_content(&mut self, n: NodeRef, text: &String)
        requires
            old(self)@.wf(),
            old(self)@.valid(n.index()),
        ensures
            final(self)@ == old(self)@.set_text_m(n.index(), text@),
            final(self)@.wf(),
    {
        let ghost d0 = self@;
        let ghost v0 = self.nodes@;
        let mut node = self.nodes.remove(n.raw);
        node.text = text.clone();
        self.nodes.insert(n.raw, node);
        proof {
            assert(self.nodes@ =~= v0.update(n.index(), self.nodes@[n.index()]));
            assert(node_m(self.nodes@[n.index()]) =~~= (NodeM {
                text: text@,
                ..d0.nodes[n.index()]
            }));
            assert(self@ =~~= d0.set_text_m(n.index(), text@));
            lemma_wf_upd_same_links(d0, n.index(), (NodeM { text: text@, ..d0.nodes[n.index()] }));
        }
    }

    /// The text content of node `n`.
    pub fn text_content(&self, n: NodeRef) -> (r: &String)
        requires
            self@.valid(n.index()),
        ensures
            r@ == self@.nodes[n.index()].text,
    {
        &self.nodes[n.raw].text
    }

    /// The tag name of node `n`.
    pub fn kind_of(&self, n: NodeRef) -> (r: &String)
        requires
            self@.valid(n.index()),
        ensures
            r@ == self@.nodes[n.index()].kind,
    {
        &self.nodes[n.raw].kind
    }

    /// The parent of node `n`, if it is attached.
    pub fn parent_node(&self, n: NodeRef) -> (r: Option<NodeRef>)
        requires
            self@.valid(n.index()),
        ensures
            match r {
                Option::Some(p) => self@.parent_of(n.index()) == Option::Some(p.index()),
                Option::None => self@.parent_of(n.index()) is None,
            },
    {
        self.nodes[n.raw].parent_ref
    }

    /// How many children node `n` has.
    pub fn child_count(&self, n: NodeRef) -> (r: usize)
        requires
            self@.valid(n.index()),
        ensures
            r == self@.children_of(n.index()).len(),
    {
        self.nodes[n.raw].children.len()
    }

    /// The child of `n` at position `i`.
    pub fn child_at(&self, n: NodeRef, i: usize) -> (r: NodeRef)
        requires
            self@.valid(n.index()),
            i < self@.children_of(n.index()).len(),
        ensures
            r.index() == self@.children_of(n.index())[i as int],
    {
        self.nodes[n.raw].children[i]
    }

    /// The position of `c` among the children of `p`, when it is one.
    pub fn child_position(&self, p: NodeRef, c: NodeRef) -> (r: Option<usize>)
        requires
            self@.wf(),
            self@.valid(p.index()),
        ensures
            match r {
                Option::Some(k) => self@.children_of(p.index()).contains(c.index()) && k
                    < self@.children_of(p.index()).len() && self@.children_of(p.index())[k as int]
                    == c.index() && self@.children_of(p.index()).index_of(c.index()) == k,
                Option::None => !self@.children_of(p.index()).contains(c.index()),
            },
    {
        let node = &self.nodes[p.raw];
        let mut k: usize = 0;
        while k < node.children.len()
            invariant
                k <= node.children@.len(),
                self@.wf(),
                self@.valid(p.index()),
                node == &self.nodes@[p.index()],
                self@.children_of(p.index()).len() == node.children@.len(),
                forall|j: int|
                    0 <= j < node.children@.len() ==> self@.children_of(p.index())[j] == (
                    #[trigger] node.children@[j]).index(),
                forall|j: int| 0 <= j < k ==> self@.children_of(p.index())[j] != c.index(),
            decreases node.children@.len() - k,
        {
            if node.children[k] == c {
                proof {
                    let ch = self@.children_of(p.index());
                    assert(ch[k as int] == c.index());
                    assert forall|j: int|
                        0 <= j < ch.len() && j != k implies ch[j] != c.index() by {
                        if j < k {
                            assert(ch[j] != ch[k as int]);
                        } else {
                            assert(ch[k as int] != ch[j]);
                        }
                    }
                    lemma_index_of_only(ch, c.index(), k as int);
                }
                return Option::Some(k);
            }
            k = k + 1;
        }
        proof {
            assert forall|j: int|
                0 <= j < self@.children_of(p.index()).len() implies self@.children_of(p.index())[j]
                != c.index() by {}
        }
        Option::None
    }

    /// A snapshot of the children of `n`, in document order.
    pub fn child_nodes(&self, n: NodeRef) -> (r: Vec<NodeRef>)
        requires
            self@.valid(n.index()),
        ensures
            r@.len() == self@.children_of(n.index()).len(),
            forall|i: int|
                0 <= i < r@.len() ==> #[trigger] r@[i].index() == self@.children_of(n.index())[i],
    {
        let node = &self.nodes[n.raw];
        let mut out: Vec<NodeRef> = Vec::new();
        let mut i: usize = 0;
        while i < node.children.len()
            invariant
                i <= node.children@.len(),
                out@.len() == i,
                self@.valid(n.index()),
                node == &self.nodes@[n.index()],
                self@.children_of(n.index()).len() == node.children@.len(),
                forall|j: int|
                    0 <= j < i ==> #[trigger] out@[j].index() == self@.children_of(n.index())[j],
            decreases node.children@.len() - i,
        {
            out.push(node.children[i]);
            i = i + 1;
        }
        out
    }

    /// Inserts the detached node `c` among the children of `p`, at `pos`.
    pub fn insert_child_at(&mut self, p: NodeRef, c: NodeRef, pos: usize)
        requires
            old(self)@.wf(),
            old(self)@.valid(p.index()),
            old(self)@.valid(c.index()),
            old(self)@.parent_of(c.index()) is None,
            pos <= old(self)@.children_of(p.index()).len(),
        ensures
            final(self)@ == old(self)@.insert_child_m(p.index(), c.index(), pos as int),
            final(self)@.wf(),
    {
        let ghost d0 = self@;
        let ghost v0 = self.nodes@;
        let mut pn = self.nodes.remove(p.raw);
        pn.children.insert(pos, c);
        self.nodes.insert(p.raw, pn);
        proof {
            assert(self.nodes@ =~= v0.update(p.index(), self.nodes@[p.index()]));
            assert(node_m(self.nodes@[p.index()]).children =~= d0.nodes[p.index()].children.insert(
                pos as int,
                c.index(),
            ));
            assert(node_m(self.nodes@[p.index()]) =~~= (NodeM {
                children: d0.nodes[p.index()].children.insert(pos as int, c.index()),
                ..d0.nodes[p.index()]
            }));
            assert(self@ =~~= d0.upd_node(
                p.index(),
                NodeM {
                    children: d0.nodes[p.index()].children.insert(pos as int, c.index()),
                    ..d0.nodes[p.index()]
                },
            ));
        }
        let ghost d1 = self@;
        let ghost v1 = self.nodes@;
        let mut cn = self.nodes.remove(c.raw);
        cn.parent_ref = Option::Some(p);
        self.nodes.insert(c.raw, cn);
        proof {
            assert(self.nodes@ =~= v1.update(c.index(), self.nodes@[c.index()]));
            assert(node_m(self.nodes@[c.index()]) =~~= (NodeM {
                parent: Option::Some(p.index()),
                ..d1.nodes[c.index()]
            }));
            assert(self@ =~~= d1.upd_node(
                c.index(),
                NodeM { parent: Option::Some(p.index()), ..d1.nodes[c.index()] },
            ));
            assert(self@ =~~= d0.insert_child_m(p.index(), c.index(), pos as int));
            lemma_wf_insert_child(d0, p.index(), c.index(), pos as int);
        }
    }

    /// Appends the detached node `c` as the last child of `p`.
    pub fn append_child(&mut self, p: NodeRef, c: NodeRef)
        requires
            old(self)@.wf(),
            old(self)@.valid(p.index()),
            old(self)@.valid(c.index()),
            old(self)@.parent_of(c.index()) is None,
        ensures
            final(self)@ == old(self)@.append_child_m(p.index(), c.index()),
            final(self)@.wf(),
    {
        let len = self.child_count(p);
        self.insert_child_at(p, c, len);
    }

    /// Detaches `c` from `p`. A `c` that is not a child of `p` is left as
    /// it is, as is the document.
    pub fn remove_child(&mut self, p: NodeRef, c: NodeRef)
        requires
            old(self)@.wf(),
            old(self)@.valid(p.index()),
            old(self)@.valid(c.index()),
        ensures
            final(self)@ == old(self)@.remove_child_m(p.index(), c.index()),
            final(self)@.wf(),
    {
        let ghost d0 = self@;
        let node = &self.nodes[p.raw];
        let mut k: usize = 0;
        let mut found: bool = false;
        while k < node.children.len() && !found
            invariant
                k <= node.children@.len(),
                self@.valid(p.index()),
                node == &self.nodes@[p.index()],
                found ==> k < node.children@.len() && node.children@[k as int] == c,
                !found ==> forall|j: int| 0 <= j < k ==> node.children@[j] != c,
            decreases node.children@.len() - k + if found {
                0int
            } else {
                1int
            },
        {
            if node.children[k] == c {
                found = true;
            } else {
                k = k + 1;
            }
        }
        if found {
            proof {
                let ch = d0.children_of(p.index());
                assert(ch[k as int] == c.index());
                assert forall|j: int| 0 <= j < ch.len() && j != k implies ch[j] != c.index() by {
                    if j < k {
                        assert(ch[j] != ch[k as int]);
                    } else {
                        assert(ch[k as int] != ch[j]);
                    }
                }
                lemma_index_of_only(ch, c.index(), k as int);
            }
            let ghost v0 = self.nodes@;
            let mut pn = self.nodes.remove(p.raw);
            pn.children.remove(k);
            self.nodes.insert(p.raw, pn);
            proof {
                assert(self.nodes@ =~= v0.update(p.index(), self.nodes@[p.index()]));
                assert(node_m(self.nodes@[p.index()]).children =~= d0.nodes[p.index()].children.remove(
                    k as int,
                ));
                assert(node_m(self.nodes@[p.index()]) =~~= (NodeM {
                    children: d0.nodes[p.index()].children.remove(k as int),
                    ..d0.nodes[p.index()]
                }));
                assert(self@ =~~= d0.upd_node(
                    p.index(),
                    NodeM {
                        children: d0.nodes[p.index()].children.remove(k as int),
                        ..d0.nodes[p.index()]
                    },
                ));
            }
            let ghost d1 = self@;
            let ghost v1 = self.nodes@;
            let mut cn = self.nodes.remove(c.raw);
            cn.parent_ref = Option::None;
            self.nodes.insert(c.raw, cn);
            proof {
                assert(self.nodes@ =~= v1.update(c.index(), self.nodes@[c.index()]));
                assert(node_m(self.nodes@[c.index()]) =~~= (NodeM {
                    parent: Option::None,
                    ..d1.nodes[c.index()]
                }));
                assert(self@ =~~= d1.upd_node(
                    c.index(),
                    NodeM { parent: Option::None, ..d1.nodes[c.index()] },
                ));
                assert(self@ =~~= d0.remove_child_m(p.index(), c.index()));
                lemma_wf_remove_child(d0, p.index(), c.index());
            }
        } else {
            proof {
                assert(forall|j: int|
                    0 <= j < d0.children_of(p.index()).len() ==> d0.children_of(p.index())[j]
                        != c.index());
                assert(!d0.children_of(p.index()).contains(c.index()));
            }
        }
    }
}

impl Dom {
    /// Swaps the child `prev` of `p` for the detached node `next`, at
    /// `prev`'s position; `prev` comes out detached.
    pub fn replace_child(&mut self, p: NodeRef, next: NodeRef, prev: NodeRef)
        requires
            old(self)@.wf(),
            old(self)@.valid(p.index()),
            old(self)@.valid(next.index()),
            old(self)@.valid(prev.index()),
            old(self)@.children_of(p.index()).contains(prev.index()),
            old(self)@.parent_of(next.index()) is None,
        ensures
            final(self)@ == old(self)@.replace_child_m(p.index(), next.index(), prev.index()),
            final(self)@.wf(),
    {
        let ghost d0 = self@;
        proof {
            assert(d0.parent_of(prev.index()) == Option::Some(p.index())) by {
                let ch = d0.children_of(p.index());
                let k0 = choose|k0: int| 0 <= k0 < ch.len() && ch[k0] == prev.index();
                assert(ch[k0] == prev.index());
            }
            assert(next.index() != prev.index());
        }
        let count = self.child_count(p);
        let mut k: usize = 0;
        let mut found: bool = false;
        while k < count && !found
            invariant
                d0 == self@,
                d0.wf(),
                d0.valid(p.index()),
                count == d0.children_of(p.index()).len(),
                k <= count,
                found ==> k < count && d0.children_of(p.index())[k as int] == prev.index(),
                !found ==> forall|j: int|
                    0 <= j < k ==> d0.children_of(p.index())[j] != prev.index(),
            decreases count - k + if found {
                0int
            } else {
                1int
            },
        {
            let c = self.child_at(p, k);
            if c == prev {
                found = true;
            } else {
                k = k + 1;
            }
        }
        proof {
            if !found {
                let ch = d0.children_of(p.index());
                let k0 = choose|k0: int| 0 <= k0 < ch.len() && ch[k0] == prev.index();
                assert(ch[k0] == prev.index());
                assert(false);
            }
            let ch = d0.children_of(p.index());
            assert forall|j: int|
                0 <= j < ch.len() && j != k implies ch[j] != prev.index() by {
                if j < k {
                    assert(ch[j] != ch[k as int]);
                } else {
                    assert(ch[k as int] != ch[j]);
                }
            }
            lemma_index_of_only(ch, prev.index(), k as int);
        }
        self.remove_child(p, prev);
        let ghost d1 = self@;
        proof {
            assert(d1.parent_of(next.index()) is None);
            assert(d1.children_of(p.index()).len() == d0.children_of(p.index()).len() - 1);
        }
        self.insert_child_at(p, next, k);
        proof {
            let pi = p.index();
            let ni = next.index();
            let vi = prev.index();
            let ch = d0.children_of(pi);
            assert(d0.children_of(pi).index_of(vi) == k as int);
            assert(d1 == d0.upd_node(
                pi,
                NodeM { children: ch.remove(k as int), ..d0.nodes[pi] },
            ).upd_node(
                vi,
                NodeM {
                    parent: Option::None,
                    ..d0.upd_node(
                        pi,
                        NodeM { children: ch.remove(k as int), ..d0.nodes[pi] },
                    ).nodes[vi]
                },
            ));
            assert(ch.remove(k as int).insert(k as int, ni) =~= ch.update(k as int, ni));
            assert(self@ =~~= d0.replace_child_m(pi, ni, vi));
        }
    }

    /// Sets the attribute `key` of node `n` to `value`.
    pub fn set_attribute(&mut self, n: NodeRef, key: String, value: Prop)
        requires
            old(self)@.wf(),
            old(self)@.valid(n.index()),
        ensures
            final(self)@ == old(self)@.upd_node(
                n.index(),
                NodeM {
                    attributes: props_set(
                        old(self)@.nodes[n.index()].attributes,
                        key@,
                        value@,
                    ),
                    ..old(self)@.nodes[n.index()]
                },
            ),
            final(self)@.wf(),
    {
        let ghost d0 = self@;
        let ghost v0 = self.nodes@;
        let ghost n2 = NodeM {
            attributes: props_set(d0.nodes[n.index()].attributes, key@, value@),
            ..d0.nodes[n.index()]
        };
        let mut node = self.nodes.remove(n.raw);
        node.attributes.set(key, value);
        self.nodes.insert(n.raw, node);
        proof {
            assert(self.nodes@ =~= v0.update(n.index(), self.nodes@[n.index()]));
            assert(node_m(self.nodes@[n.index()]) =~~= n2);
            assert(self@ =~~= d0.upd_node(n.index(), n2));
            lemma_props_set_wf(d0.nodes[n.index()].attributes, key@, value@);
            lemma_wf_upd_same_links(d0, n.index(), n2);
        }
    }

    /// Removes the attribute `key` of node `n`; absent keys are left be.
    pub fn remove_attribute(&mut self, n: NodeRef, key: &String)
        requires
            old(self)@.wf(),
            old(self)@.valid(n.index()),
        ensures
            final(self)@ == old(self)@.upd_node(
                n.index(),
                NodeM {
                    attributes: props_remove(old(self)@.nodes[n.index()].attributes, key@),
                    ..old(self)@.nodes[n.index()]
                },
            ),
            final(self)@.wf(),
    {
        let ghost d0 = self@;
        let ghost v0 = self.nodes@;
        let ghost n2 = NodeM {
            attributes: props_remove(d0.nodes[n.index()].attributes, key@),
            ..d0.nodes[n.index()]
        };
        let mut node = self.nodes.remove(n.raw);
        node.attributes.remove(key);
        self.nodes.insert(n.raw, node);
        proof {
            assert(self.nodes@ =~= v0.update(n.index(), self.nodes@[n.index()]));
            assert(node_m(self.nodes@[n.index()]) =~~= n2);
            assert(self@ =~~= d0.upd_node(n.index(), n2));
            lemma_props_remove_wf(d0.nodes[n.index()].attributes, key@);
            lemma_wf_upd_same_links(d0, n.index(), n2);
        }
    }

    /// Sets the style entry `key` of node `n` to `value`.
    pub fn set_style(&mut self, n: NodeRef, key: String, value: Prop)
        requires
            old(self)@.wf(),
            old(self)@.valid(n.index()),
        ensures
            final(self)@ == old(self)@.upd_node(
                n.index(),
                NodeM {
                    styles: props_set(old(self)@.nodes[n.index()].styles, key@, value@),
                    ..old(self)@.nodes[n.index()]
                },
            ),
            final(self)@.wf(),
    {
        let ghost d0 = self@;
        let ghost v0 = self.nodes@;
        let ghost n2 = NodeM {
            styles: props_set(d0.nodes[n.index()].styles, key@, value@),
            ..d0.nodes[n.index()]
        };
        let mut node = self.nodes.remove(n.raw);
        node.styles.set(key, value);
        self.nodes.insert(n.raw, node);
        proof {
            assert(self.nodes@ =~= v0.update(n.index(), self.nodes@[n.index()]));
            assert(node_m(self.nodes@[n.index()]) =~~= n2);
            assert(self@ =~~= d0.upd_node(n.index(), n2));
            lemma_props_set_wf(d0.nodes[n.index()].styles, key@, value@);
            lemma_wf_upd_same_links(d0, n.index(), n2);
        }
    }

    /// Sets the plain property `key` of node `n` to `value`.
    pub fn set_property(&mut self, n: NodeRef, key: String, value: Prop)
        requires
            old(self)@.wf(),
            old(self)@.valid(n.index()),
        ensures
            final(self)@ == old(self)@.upd_node(
                n.index(),
                NodeM {
                    properties: props_set(
                        old(self)@.nodes[n.index()].properties,
                        key@,
                        value@,
                    ),
                    ..old(self)@.nodes[n.index()]
                },
            ),
            final(self)@.wf(),
    {
        let ghost d0 = self@;
        let ghost v0 = self.nodes@;
        let ghost n2 = NodeM {
            properties: props_set(d0.nodes[n.index()].properties, key@, value@),
            ..d0.nodes[n.index()]
        };
        let mut node = self.nodes.remove(n.raw);
        node.properties.set(key, value);
        self.nodes.insert(n.raw, node);
        proof {
            assert(self.nodes@ =~= v0.update(n.index(), self.nodes@[n.index()]));
            assert(node_m(self.nodes@[n.index()]) =~~= n2);
            assert(self@ =~~= d0.upd_node(n.index(), n2));
            lemma_props_set_wf(d0.nodes[n.index()].properties, key@, value@);
            lemma_wf_upd_same_links(d0, n.index(), n2);
        }
    }

    /// The attribute `key` of node `n`.
    pub fn attribute(&self, n: NodeRef, key: &String) -> (r: Option<&Prop>)
        requires
            self@.wf(),
            self@.valid(n.index()),
        ensures
            match r {
                Option::Some(p) => props_has_key(self@.nodes[n.index()].attributes, key@) && p@
                    == props_value(self@.nodes[n.index()].attributes, key@),
                Option::None => !props_has_key(self@.nodes[n.index()].attributes, key@),
            },
    {
        self.nodes[n.raw].attributes.get(key)
    }

    /// The style entry `key` of node `n`.
    pub fn style_value(&self, n: NodeRef, key: &String) -> (r: Option<&Prop>)
        requires
            self@.wf(),
            self@.valid(n.index()),
        ensures
            match r {
                Option::Some(p) => props_has_key(self@.nodes[n.index()].styles, key@) && p@
                    == props_value(self@.nodes[n.index()].styles, key@),
                Option::None => !props_has_key(self@.nodes[n.index()].styles, key@),
            },
    {
        self.nodes[n.raw].styles.get(key)
    }

    /// The plain property `key` of node `n`.
    pub fn property(&self, n: NodeRef, key: &String) -> (r: Option<&Prop>)
        requires
            self@.wf(),
            self@.valid(n.index()),
        ensures
            match r {
                Option::Some(p) => props_has_key(self@.nodes[n.index()].properties, key@) && p@
                    == props_value(self@.nodes[n.index()].properties, key@),
                Option::None => !props_has_key(self@.nodes[n.index()].properties, key@),
            },
    {
        self.nodes[n.raw].properties.get(key)
    }

    /// Attaches one native listener for `name` at the document level.
    pub fn add_listener(&mut self, name: String)
        requires
            old(self)@.wf(),
        ensures
            final(self)@ == (DomM {
                listeners: old(self)@.listeners.push(name@),
                ..old(self)@
            }),
            final(self)@.wf(),
    {
        let ghost d0 = self@;
        self.listeners.push(name);
        proof {
            assert(self@ =~~= (DomM { listeners: d0.listeners.push(name@), ..d0 }));
            lemma_wf_nodes_only(d0, self@);
        }
    }

    /// Detaches the earliest-attached native listener for `name`; nothing
    /// happens when none is attached.
    pub fn remove_listener(&mut self, name: &String)
        requires
            old(self)@.wf(),
        ensures
            final(self)@ == (DomM {
                listeners: seq_remove_first(old(self)@.listeners, name@),
                ..old(self)@
            }),
            final(self)@.wf(),
    {
        let ghost d0 = self@;
        let mut i: usize = 0;
        while i < self.listeners.len()
            invariant
                i <= self.listeners@.len(),
                self == old(self),
                d0 == self@,
                d0.wf(),
                forall|j: int| 0 <= j < i ==> self@.listeners[j] != name@,
                forall|j: int|
                    0 <= j < self@.listeners.len() ==> self@.listeners[j]
                        == #[trigger] self.listeners@[j]@,
                self@.listeners.len() == self.listeners@.len(),
            decreases self.listeners@.len() - i,
        {
            if self.listeners[i] == *name {
                proof {
                    let ls = d0.listeners;
                    assert(ls[i as int] == name@);
                    lemma_first_index(ls, name@, i as int);
                }
                self.listeners.remove(i);
                proof {
                    assert(self@.listeners =~= d0.listeners.remove(i as int));
                    assert(self@.listeners =~= seq_remove_first(d0.listeners, name@));
                    assert(self@ =~~= (DomM {
                        listeners: seq_remove_first(d0.listeners, name@),
                        ..d0
                    }));
                    lemma_wf_nodes_only(d0, self@);
                }
                return ;
            }
            i = i + 1;
        }
        proof {
            lemma_first_index_none(d0.listeners, name@);
            assert(self@ =~~= (DomM { listeners: seq_remove_first(d0.listeners, name@), ..d0 }));
        }
    }

    /// How many native listeners for `name` are attached.
    pub fn listener_count(&self, name: &String) -> (r: usize)
        ensures
            r == count_matches(self@.listeners, name@),
    {
        let mut acc: usize = 0;
        let mut i: usize = 0;
        while i < self.listeners.len()
            invariant
                i <= self.listeners@.len(),
                acc <= i,
                acc == count_matches(self@.listeners.take(i as int), name@),
                forall|j: int|
                    0 <= j < self@.listeners.len() ==> self@.listeners[j]
                        == #[trigger] self.listeners@[j]@,
                self@.listeners.len() == self.listeners@.len(),
            decreases self.listeners@.len() - i,
        {
            let ghost pre = self@.listeners.take(i as int);
            let hit = self.listeners[i] == *name;
            proof {
                let cur = self@.listeners.take(i + 1 as int);
                assert(cur.drop_last() =~= pre);
                assert(cur.last() == self@.listeners[i as int]);
            }
            if hit {
                acc = acc + 1;
            }
            i = i + 1;
        }
        proof {
            assert(self@.listeners.take(self@.listeners.len() as int) =~= self@.listeners);
        }
        acc
    }
}

/// The position of the first occurrence of `x` in `s`, or a negative value
/// when `x` is absent.
pub open spec fn first_index_of(s: Seq<Seq<char>>, x: Seq<char>) -> int
    decreases s.len(),
{
    if s.len() == 0 {
        -1
    } else if s[0] == x {
        0
    } else {
        let r = first_index_of(s.drop_first(), x);
        if r < 0 {
            -1
        } else {
            r + 1
        }
    }
}

/// A change that leaves the nodes alone keeps the document well formed.
proof fn lemma_wf_nodes_only(d: DomM, d2: DomM)
    requires
        d.wf(),
        d2.nodes == d.nodes,
    ensures
        d2.wf(),
{
    assert forall|p: int, k: int|
        d2.valid(p) && 0 <= k < d2.children_of(p).len() implies d2.valid(
        #[trigger] d2.children_of(p)[k],
    ) && d2.parent_of(d2.children_of(p)[k]) == Option::Some(p) by {
        assert(d.children_of(p)[k] == d2.children_of(p)[k]);
    }
    assert forall|c: int| d2.valid(c) && #[trigger] d2.parent_of(c) is Some implies d2.valid(
        d2.parent_of(c)->0,
    ) && d2.children_of(d2.parent_of(c)->0).contains(c) by {
        assert(d.parent_of(c) is Some);
        let p = d.parent_of(c)->0;
        assert(d.children_of(p).contains(c));
    }
    assert forall|p: int, k1: int, k2: int|
        d2.valid(p) && 0 <= k1 < k2 < d2.children_of(p).len() implies #[trigger] d2.children_of(
        p,
    )[k1] != #[trigger] d2.children_of(p)[k2] by {
        assert(d.children_of(p)[k1] != d.children_of(p)[k2]);
    }
    assert forall|i: int| d2.valid(i) implies #[trigger] d2.nodes[i].maps_wf() by {
        assert(d.nodes[i].maps_wf());
    }
}

/// When `x` sits at position `k` and nowhere earlier, the first occurrence
/// is `k`.
proof fn lemma_first_index(s: Seq<Seq<char>>, x: Seq<char>, k: int)
    requires
        0 <= k < s.len(),
        s[k] == x,
        forall|j: int| 0 <= j < k ==> s[j] != x,
    ensures
        first_index_of(s, x) == k,
        seq_remove_first(s, x) == s.remove(k),
    decreases k,
{
    if k == 0 {
    } else {
        assert(s[0] != x);
        let t = s.drop_first();
        assert forall|j: int| 0 <= j < k - 1 implies t[j] != x by {
            assert(t[j] == s[j + 1]);
        }
        assert(t[k - 1] == x);
        lemma_first_index(t, x, k - 1);
        assert(first_index_of(s, x) == k);
        assert(seq_remove_first(s, x) =~= s.remove(k));
    }
}

/// When `x` is nowhere in `s`, there is no first occurrence.
proof fn lemma_first_index_none(s: Seq<Seq<char>>, x: Seq<char>)
    requires
        forall|j: int| 0 <= j < s.len() ==> s[j] != x,
    ensures
        first_index_of(s, x) < 0,
        seq_remove_first(s, x) == s,
    decreases s.len(),
{
    if s.len() > 0 {
        let t = s.drop_first();
        assert forall|j: int| 0 <= j < t.len() implies t[j] != x by {
            assert(t[j] == s[j + 1]);
        }
        lemma_first_index_none(t, x);
    }
}

/// Creating a fresh element keeps the document well formed.
pub proof fn lemma_wf_push_blank(d: DomM, kind: Seq<char>)
    requires
        d.wf(),
    ensures
        d.create_m(kind).wf(),
{
    lemma_wf_grow(d, NodeM::blank(kind));
}

/// Setting text content keeps the document well formed.
pub proof fn lemma_wf_upd_text(d: DomM, i: int, s: Seq<char>)
    requires
        d.wf(),
        d.valid(i),
    ensures
        d.set_text_m(i, s).wf(),
{
    lemma_wf_upd_same_links(d, i, (NodeM { text: s, ..d.nodes[i] }));
}

/// Inserting a detached node among a parent's children keeps the document
/// well formed.
pub proof fn lemma_wf_insert_child_pub(d: DomM, p: int, c: int, pos: int)
    requires
        d.wf(),
        d.valid(p),
        d.valid(c),
        d.parent_of(c) is None,
        0 <= pos <= d.children_of(p).len(),
    ensures
        d.insert_child_m(p, c, pos).wf(),
{
    lemma_wf_insert_child(d, p, c, pos);
}

/// Appending a fresh node keeps the document well formed.
proof fn lemma_wf_grow(d: DomM, n: NodeM)
    requires
        d.wf(),
        n.children.len() == 0,
        n.parent is None,
        n.maps_wf(),
    ensures
        (DomM { nodes: d.nodes.push(n), ..d }).wf(),
{
    let d2 = DomM { nodes: d.nodes.push(n), ..d };
    assert forall|p: int, k: int|
        d2.valid(p) && 0 <= k < d2.children_of(p).len() implies d2.valid(
        #[trigger] d2.children_of(p)[k],
    ) && d2.parent_of(d2.children_of(p)[k]) == Option::Some(p) by {
        if p < d.nodes.len() {
            assert(d.children_of(p)[k] == d2.children_of(p)[k]);
        }
    }
    assert forall|c: int| d2.valid(c) && #[trigger] d2.parent_of(c) is Some implies d2.valid(
        d2.parent_of(c)->0,
    ) && d2.children_of(d2.parent_of(c)->0).contains(c) by {
        if c < d.nodes.len() {
            assert(d.parent_of(c) is Some);
            let p = d.parent_of(c)->0;
            assert(d.children_of(p).contains(c));
            assert(d2.children_of(p) == d.children_of(p));
            assert(d2.children_of(p).contains(c));
        }
    }
    assert forall|p: int, k1: int, k2: int|
        d2.valid(p) && 0 <= k1 < k2 < d2.children_of(p).len() implies #[trigger] d2.children_of(
        p,
    )[k1] != #[trigger] d2.children_of(p)[k2] by {
        if p < d.nodes.len() {
            assert(d2.children_of(p) == d.children_of(p));
            assert(d.children_of(p)[k1] != d.children_of(p)[k2]);
        } else {
            assert(d2.children_of(p).len() == 0);
        }
    }
    assert forall|i: int| d2.valid(i) implies #[trigger] d2.nodes[i].maps_wf() by {
        if i < d.nodes.len() {
            assert(d2.nodes[i] == d.nodes[i]);
        } else {
            assert(d2.nodes[i] == n);
        }
    }
}

/// Two nodes agree on links and property sinks.
pub open spec fn same_node_shape(a: NodeM, b: NodeM) -> bool {
    b.children == a.children && b.parent == a.parent && b.attributes == a.attributes && b.styles
        == a.styles && b.properties == a.properties
}

/// Replacing one node by another with the same links and sinks keeps the
/// document well formed.
proof fn lemma_wf_upd_same_links(d: DomM, i: int, n2: NodeM)
    requires
        d.wf(),
        d.valid(i),
        n2.children == d.nodes[i].children,
        n2.parent == d.nodes[i].parent,
        n2.maps_wf(),
    ensures
        d.upd_node(i, n2).wf(),
{
    let d2 = d.upd_node(i, n2);
    assert forall|q: int| d.valid(q) implies #[trigger] d2.children_of(q) == d.children_of(q)
        && d2.parent_of(q) == d.parent_of(q) by {
        if q == i {
        } else {
            assert(d2.nodes[q] == d.nodes[q]);
        }
    }
    assert forall|p: int, k: int|
        d2.valid(p) && 0 <= k < d2.children_of(p).len() implies d2.valid(
        #[trigger] d2.children_of(p)[k],
    ) && d2.parent_of(d2.children_of(p)[k]) == Option::Some(p) by {
        assert(d2.children_of(p) == d.children_of(p));
        let ch = d.children_of(p)[k];
        assert(d.valid(ch));
        assert(d2.parent_of(ch) == d.parent_of(ch));
    }
    assert forall|c: int| d2.valid(c) && #[trigger] d2.parent_of(c) is Some implies d2.valid(
        d2.parent_of(c)->0,
    ) && d2.children_of(d2.parent_of(c)->0).contains(c) by {
        assert(d2.parent_of(c) == d.parent_of(c));
        let p = d.parent_of(c)->0;
        assert(d.children_of(p).contains(c));
        assert(d2.children_of(p) == d.children_of(p));
    }
    assert forall|p: int, k1: int, k2: int|
        d2.valid(p) && 0 <= k1 < k2 < d2.children_of(p).len() implies #[trigger] d2.children_of(
        p,
    )[k1] != #[trigger] d2.children_of(p)[k2] by {
        assert(d2.children_of(p) == d.children_of(p));
        assert(d.children_of(p)[k1] != d.children_of(p)[k2]);
    }
    assert forall|q: int| d2.valid(q) implies #[trigger] d2.nodes[q].maps_wf() by {
        if q == i {
        } else {
            assert(d2.nodes[q] == d.nodes[q]);
            assert(d.nodes[q].maps_wf());
        }
    }
}

/// If `x` occurs at position `k` and nowhere else, then `index_of` finds
/// `k`.
proof fn lemma_index_of_only(s: Seq<int>, x: int, k: int)
    requires
        0 <= k < s.len(),
        s[k] == x,
        forall|j: int| 0 <= j < s.len() && j != k ==> s[j] != x,
    ensures
        s.contains(x),
        s.index_of(x) == k,
{
    assert(s.contains(x));
    let w = s.index_of(x);
    assert(0 <= w < s.len() && s[w] == x);
    if w != k {
        assert(s[w] != x);
    }
}

/// Inserting a detached node among a parent's children keeps the document
/// well formed.
proof fn lemma_wf_insert_child(d: DomM, p: int, c: int, pos: int)
    requires
        d.wf(),
        d.valid(p),
        d.valid(c),
        d.parent_of(c) is None,
        0 <= pos <= d.children_of(p).len(),
    ensures
        d.insert_child_m(p, c, pos).wf(),
{
    let d2 = d.insert_child_m(p, c, pos);
    assert(d2.nodes.len() == d.nodes.len());
    // c was nobody's child, since its parent link was empty
    assert forall|q: int, k: int|
        d.valid(q) && 0 <= k < d.children_of(q).len() implies #[trigger] d.children_of(q)[k]
        != c by {
        assert(d.parent_of(d.children_of(q)[k]) == Option::Some(q));
    }
    assert forall|q: int, k: int|
        d2.valid(q) && 0 <= k < d2.children_of(q).len() implies d2.valid(
        #[trigger] d2.children_of(q)[k],
    ) && d2.parent_of(d2.children_of(q)[k]) == Option::Some(q) by {
        if q == p {
            let ch = d.children_of(p);
            let ch2 = d2.children_of(p);
            assert(ch2 == ch.insert(pos, c));
            if k < pos {
                assert(ch2[k] == ch[k]);
            } else if k == pos {
                assert(ch2[k] == c);
            } else {
                assert(ch2[k] == ch[k - 1]);
            }
        } else {
            assert(d2.children_of(q) == d.children_of(q));
            assert(d.children_of(q)[k] != c);
        }
    }
    assert forall|x: int| d2.valid(x) && #[trigger] d2.parent_of(x) is Some implies d2.valid(
        d2.parent_of(x)->0,
    ) && d2.children_of(d2.parent_of(x)->0).contains(x) by {
        if x == c {
            assert(d2.children_of(p)[pos] == c);
            assert(d2.children_of(p).contains(c));
        } else {
            assert(d2.parent_of(x) == d.parent_of(x));
            let q = d.parent_of(x)->0;
            assert(d.children_of(q).contains(x));
            let k = d.children_of(q).index_of(x);
            if q == p {
                let ch2 = d2.children_of(p);
                if k < pos {
                    assert(ch2[k] == x);
                } else {
                    assert(ch2[k + 1] == x);
                }
                assert(ch2.contains(x));
            } else {
                assert(d2.children_of(q) == d.children_of(q));
            }
        }
    }
    assert forall|q: int, k1: int, k2: int|
        d2.valid(q) && 0 <= k1 < k2 < d2.children_of(q).len() implies #[trigger] d2.children_of(
        q,
    )[k1] != #[trigger] d2.children_of(q)[k2] by {
        if q == p {
            let ch = d.children_of(p);
            let ch2 = d2.children_of(p);
            assert(ch2 == ch.insert(pos, c));
            let a1 = if k1 < pos { ch[k1] } else if k1 == pos { c } else { ch[k1 - 1] };
            let a2 = if k2 < pos { ch[k2] } else if k2 == pos { c } else { ch[k2 - 1] };
            assert(ch2[k1] == a1);
            assert(ch2[k2] == a2);
            if k1 != pos && k2 != pos {
                let j1 = if k1 < pos { k1 } else { k1 - 1 };
                let j2 = if k2 < pos { k2 } else { k2 - 1 };
                assert(0 <= j1 < j2 < ch.len());
                assert(ch[j1] != ch[j2]);
            } else if k1 == pos {
                assert(a2 == ch[k2 - 1]);
                assert(a2 != c);
            } else {
                assert(a1 == ch[k1]);
                assert(a1 != c);
            }
        } else {
            assert(d2.children_of(q) == d.children_of(q));
            assert(d.children_of(q)[k1] != d.children_of(q)[k2]);
        }
    }
    assert forall|i: int| d2.valid(i) implies #[trigger] d2.nodes[i].maps_wf() by {
        assert(d2.nodes[i].attributes == d.nodes[i].attributes);
        assert(d2.nodes[i].styles == d.nodes[i].styles);
        assert(d2.nodes[i].properties == d.nodes[i].properties);
        assert(d.nodes[i].maps_wf());
    }
}

/// Detaching a child keeps the document well formed.
proof fn lemma_wf_remove_child(d: DomM, p: int, c: int)
    requires
        d.wf(),
        d.valid(p),
        d.valid(c),
        d.children_of(p).contains(c),
    ensures
        d.remove_child_m(p, c).wf(),
{
    let d2 = d.remove_child_m(p, c);
    let ch = d.children_of(p);
    let k = ch.index_of(c);
    assert(0 <= k < ch.len() && ch[k] == c);
    assert(d.parent_of(c) == Option::Some(p));
    // c occurs only at position k under p, and nowhere else
    assert forall|q: int, j: int|
        d.valid(q) && 0 <= j < d.children_of(q).len() && (q != p || j != k) implies #[trigger] d.children_of(
        q,
    )[j] != c by {
        if d.children_of(q)[j] == c {
            assert(d.parent_of(c) == Option::Some(q));
            assert(q == p);
            if j < k {
                assert(ch[j] != ch[k]);
            } else {
                assert(ch[k] != ch[j]);
            }
        }
    }
    assert forall|q: int, j: int|
        d2.valid(q) && 0 <= j < d2.children_of(q).len() implies d2.valid(
        #[trigger] d2.children_of(q)[j],
    ) && d2.parent_of(d2.children_of(q)[j]) == Option::Some(q) by {
        if q == p {
            let ch2 = d2.children_of(p);
            assert(ch2 == ch.remove(k));
            if j < k {
                assert(ch2[j] == ch[j]);
                assert(ch[j] != c);
            } else {
                assert(ch2[j] == ch[j + 1]);
                assert(ch[j + 1] != c);
            }
        } else {
            assert(d2.children_of(q) == d.children_of(q));
            assert(d.children_of(q)[j] != c);
        }
    }
    assert forall|x: int| d2.valid(x) && #[trigger] d2.parent_of(x) is Some implies d2.valid(
        d2.parent_of(x)->0,
    ) && d2.children_of(d2.parent_of(x)->0).contains(x) by {
        assert(x != c);
        assert(d2.parent_of(x) == d.parent_of(x));
        let q = d.parent_of(x)->0;
        assert(d.children_of(q).contains(x));
        let j = d.children_of(q).index_of(x);
        if q == p {
            let ch2 = d2.children_of(p);
            assert(j != k);
            if j < k {
                assert(ch2[j] == x);
            } else {
                assert(ch2[j - 1] == x);
            }
            assert(ch2.contains(x));
        } else {
            assert(d2.children_of(q) == d.children_of(q));
        }
    }
    assert forall|q: int, k1: int, k2: int|
        d2.valid(q) && 0 <= k1 < k2 < d2.children_of(q).len() implies #[trigger] d2.children_of(
        q,
    )[k1] != #[trigger] d2.children_of(q)[k2] by {
        if q == p {
            let ch2 = d2.children_of(p);
            assert(ch2 == ch.remove(k));
            let j1 = if k1 < k { k1 } else { k1 + 1 };
            let j2 = if k2 < k { k2 } else { k2 + 1 };
            assert(ch2[k1] == ch[j1]);
            assert(ch2[k2] == ch[j2]);
            assert(0 <= j1 < j2 < ch.len());
            assert(ch[j1] != ch[j2]);
        } else {
            assert(d2.children_of(q) == d.children_of(q));
            assert(d.children_of(q)[k1] != d.children_of(q)[k2]);
        }
    }
    assert forall|i: int| d2.valid(i) implies #[trigger] d2.nodes[i].maps_wf() by {
        assert(d2.nodes[i].attributes == d.nodes[i].attributes);
        assert(d2.nodes[i].styles == d.nodes[i].styles);
        assert(d2.nodes[i].properties == d.nodes[i].properties);
        assert(d.nodes[i].maps_wf());
    }
}

} // verus!
