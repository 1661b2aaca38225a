//! The patch application engine: owns the document model, the identity
//! map and the event delegation table, and applies one transaction at a
//! time to them.

use vstd::prelude::*;
use crate::dom::{Dom, DomM, NodeM, NodeRef};
use crate::events::{ev_wf, Events, EventsM};
use crate::nodes_ids::{
    ids_has_id, ids_has_node, ids_id_of, ids_insert, ids_node_of, ids_remove_id, ids_wf, IdsM,
    NodesIds,
};
use crate::prop::{props_has_key, props_m, props_remove, props_set, props_value, props_wf, Prop, PropM, Props, PropsM};
use crate::raw_view::{spec_view_id, view_id, view_m, RawView, ViewM};
use crate::transaction::{order_m, patch_m, OrderM, Order, Patch, PatchM, Transaction, TransactionM};

verus! {

broadcast use vstd::std_specs::vec::group_vec_axioms;

/// The mathematical shape of the engine: the document, the container node
/// that mounted trees go under, the identity map, and the delegation
/// table.
#[verifier::ext_equal]
pub ghost struct PatcherM {
    pub dom: DomM,
    pub root: int,
    pub ids: IdsM,
    pub events: EventsM,
}

/// The patch application engine.
pub struct Patcher {
    dom: Dom,
    root: NodeRef,
    events: Events,
    nodes_ids: NodesIds,
}

impl View for Patcher {
    type V = PatcherM;

    closed spec fn view(&self) -> PatcherM {
        PatcherM {
            dom: self.dom@,
            root: self.root.index(),
            ids: self.nodes_ids@,
            events: self.events@,
        }
    }
}

impl PatcherM {
    /// The engine is sound: the document is well formed, the identity map
    /// is a bijection onto live nodes, the delegation table is well
    /// formed, and the container is a live node.
    pub open spec fn wf(self) -> bool {
        &&& self.dom.wf()
        &&& ids_wf(self.ids)
        &&& ev_wf(self.events)
        &&& self.dom.valid(self.root)
        &&& forall|i: int|
            0 <= i < self.ids.len() ==> self.dom.valid((#[trigger] self.ids[i]).1.index())
    }
}

/// The document, identity map and root slot after materializing the
/// subtree `v` and registering every derived id, as one patch-side
/// materialization step does.
pub open spec fn create_node_m(d: DomM, ids: IdsM, id: Seq<char>, v: ViewM) -> (DomM, IdsM, int) {
    let (d2, n) = mat_m(d, v);
    (d2, reg_m(ids, d2, n, id, v), n)
}

/// The tag that text leaves materialize as.
pub open spec fn span_kind() -> Seq<char> {
    seq!['s', 'p', 'a', 'n']
}

/// The document and root slot after materializing the subtree `v`: the
/// root element first, then each child's subtree in order, appended as it
/// comes.
pub open spec fn mat_m(d: DomM, v: ViewM) -> (DomM, int)
    decreases v, 0int,
{
    match v {
        ViewM::Text(s) => {
            let n = d.nodes.len() as int;
            (d.create_m(span_kind()).set_text_m(n, s), n)
        },
        ViewM::Data { kind, children, .. } => {
            let n = d.nodes.len() as int;
            (mat_children_m(d.create_m(kind), n, children, 0), n)
        },
    }
}

/// The document after materializing and appending the children of `p`
/// from position `i` on.
pub open spec fn mat_children_m(d: DomM, p: int, cs: Seq<ViewM>, i: int) -> DomM
    decreases cs, cs.len() - i,
    via mat_children_m_decreases
{
    if i < 0 || i >= cs.len() {
        d
    } else {
        let (d1, c) = mat_m(d, cs[i]);
        mat_children_m(d1.append_child_m(p, c), p, cs, i + 1)
    }
}

#[via_fn]
proof fn mat_children_m_decreases(d: DomM, p: int, cs: Seq<ViewM>, i: int) {
    if 0 <= i < cs.len() {
        assert(decreases_to!(cs => cs[i]));
    }
}

/// The subtree of `v` is materialized under `n`: node and view children
/// line up in count at every depth, every node of the subtree sits at
/// slot `base` or above, and every descendant sits above its parent, as
/// preorder materialization lays them out.
pub open spec fn lockstep_from(d: DomM, n: int, v: ViewM, base: int) -> bool
    decreases v,
    via lockstep_from_decreases
{
    &&& base <= n < d.nodes.len()
    &&& d.children_of(n).len() == v.spec_children().len()
    &&& forall|i: int|
        0 <= i < v.spec_children().len() ==> lockstep_from(
            d,
            d.children_of(n)[i],
            #[trigger] v.spec_children()[i],
            n + 1,
        )
}

#[via_fn]
proof fn lockstep_from_decreases(d: DomM, n: int, v: ViewM, base: int) {
    match v {
        ViewM::Data { kind, key, props, children } => {
            assert(v.spec_children() == children);
            assert forall|i: int| 0 <= i < children.len() implies decreases_to!(
                v => children[i],
            ) by {
                assert(decreases_to!(v => children));
                assert(decreases_to!(children => children[i]));
            };
        },
        ViewM::Text(_) => {
            assert(v.spec_children().len() == 0);
        },
    }
}

/// The identity map after registering the subtree `v`, materialized under
/// node `n` with id `id`: the root first, then each child under its
/// derived id, in order.
pub open spec fn reg_m(ids: IdsM, d: DomM, n: int, id: Seq<char>, v: ViewM) -> IdsM
    decreases v, 0int,
{
    let ids1 = ids_insert(ids, id, NodeRef { raw: n as usize });
    match v {
        ViewM::Text(_) => ids1,
        ViewM::Data { children, .. } => reg_children_m(ids1, d, n, id, children, 0),
    }
}

/// The identity map after registering the children of `p` (id `pid`) from
/// position `i` on.
pub open spec fn reg_children_m(
    ids: IdsM,
    d: DomM,
    p: int,
    pid: Seq<char>,
    cs: Seq<ViewM>,
    i: int,
) -> IdsM
    decreases cs, cs.len() - i,
    via reg_children_m_decreases
{
    if i < 0 || i >= cs.len() {
        ids
    } else {
        let cid = spec_view_id(pid, cs[i].spec_key(), i as nat);
        let ids1 = reg_m(ids, d, d.children_of(p)[i], cid, cs[i]);
        reg_children_m(ids1, d, p, pid, cs, i + 1)
    }
}

#[via_fn]
proof fn reg_children_m_decreases(
    ids: IdsM,
    d: DomM,
    p: int,
    pid: Seq<char>,
    cs: Seq<ViewM>,
    i: int,
) {
    if 0 <= i < cs.len() {
        assert(decreases_to!(cs => cs[i]));
    }
}

/// A smaller floor still bounds the subtree.
proof fn lemma_lockstep_weaken(d: DomM, n: int, v: ViewM, b1: int, b2: int)
    requires
        lockstep_from(d, n, v, b1),
        b2 <= b1,
    ensures
        lockstep_from(d, n, v, b2),
{
}

/// A document change that leaves the children of every node at or above
/// the floor alone keeps the subtree in lockstep.
proof fn lemma_lockstep_frame(d1: DomM, d2: DomM, n: int, v: ViewM, base: int)
    requires
        lockstep_from(d1, n, v, base),
        d2.nodes.len() >= d1.nodes.len(),
        forall|j: int|
            base <= j < d1.nodes.len() ==> #[trigger] d2.children_of(j) == d1.children_of(j),
    ensures
        lockstep_from(d2, n, v, base),
    decreases v,
{
    assert(d2.children_of(n) == d1.children_of(n));
    assert forall|i: int| 0 <= i < v.spec_children().len() implies lockstep_from(
        d2,
        d2.children_of(n)[i],
        #[trigger] v.spec_children()[i],
        n + 1,
    ) by {
        lemma_lockstep_frame(d1, d2, d1.children_of(n)[i], v.spec_children()[i], n + 1);
    }
}

/// What materializing a subtree does to the document: it appends fresh
/// nodes, touches nothing that existed, and leaves its detached root in
/// lockstep with the view.
proof fn lemma_mat_m(d: DomM, v: ViewM)
    requires
        d.wf(),
    ensures
        ({
            let (d2, n) = mat_m(d, v);
            &&& d2.wf()
            &&& n == d.nodes.len()
            &&& d.nodes.len() < d2.nodes.len()
            &&& d2.listeners == d.listeners
            &&& forall|j: int| 0 <= j < d.nodes.len() ==> d2.nodes[j] == d.nodes[j]
            &&& d2.parent_of(n) is None
            &&& lockstep_from(d2, n, v, d.nodes.len() as int)
        }),
    decreases v, 0int,
{
    let (d2, n) = mat_m(d, v);
    match v {
        ViewM::Text(s) => {
            let da = d.create_m(span_kind());
            crate::dom::lemma_wf_push_blank(d, span_kind());
            crate::dom::lemma_wf_upd_text(da, n, s);
            assert(lockstep_from(d2, n, v, d.nodes.len() as int)) by {
                assert(d2.children_of(n).len() == 0);
            }
        },
        ViewM::Data { kind, children, .. } => {
            let da = d.create_m(kind);
            crate::dom::lemma_wf_push_blank(d, kind);
            lemma_mat_children_m(da, n, children, 0);
            assert(d2 == mat_children_m(da, n, children, 0));
            assert(lockstep_from(d2, n, v, d.nodes.len() as int)) by {
                assert(d2.children_of(n).len() == children.len());
            }
        },
    }
}

/// What materializing a run of children does: each child subtree comes up
/// fresh and in lockstep, appended to the parent in order.
proof fn lemma_mat_children_m(d: DomM, p: int, cs: Seq<ViewM>, i: int)
    requires
        d.wf(),
        0 <= i <= cs.len(),
        0 <= p < d.nodes.len(),
        d.children_of(p).len() == i,
        forall|k: int|
            0 <= k < i ==> lockstep_from(d, #[trigger] d.children_of(p)[k], cs[k], p + 1),
    ensures
        ({
            let d2 = mat_children_m(d, p, cs, i);
            &&& d2.wf()
            &&& d.nodes.len() <= d2.nodes.len()
            &&& d2.listeners == d.listeners
            &&& forall|j: int| 0 <= j < d.nodes.len() && j != p ==> d2.nodes[j] == d.nodes[j]
            &&& d2.nodes[p].parent == d.nodes[p].parent
            &&& d2.nodes[p].kind == d.nodes[p].kind
            &&& d2.nodes[p].text == d.nodes[p].text
            &&& d2.nodes[p].attributes == d.nodes[p].attributes
            &&& d2.nodes[p].styles == d.nodes[p].styles
            &&& d2.nodes[p].properties == d.nodes[p].properties
            &&& d2.children_of(p).len() == cs.len()
            &&& forall|k: int|
                0 <= k < cs.len() ==> lockstep_from(
                    d2,
                    #[trigger] d2.children_of(p)[k],
                    cs[k],
                    p + 1,
                )
            &&& forall|k: int| 0 <= k < i ==> d2.children_of(p)[k] == d.children_of(p)[k]
        }),
    decreases cs, cs.len() - i,
{
    if i >= cs.len() {
    } else {
        let (da, c) = mat_m(d, cs[i]);
        assert(decreases_to!(cs => cs[i]));
        lemma_mat_m(d, cs[i]);
        assert(da.nodes[p] == d.nodes[p]);
        assert(da.valid(p));
        assert(da.valid(c));
        let db = da.append_child_m(p, c);
        crate::dom::lemma_wf_insert_child_pub(da, p, c, da.children_of(p).len() as int);
        assert(db.children_of(p) =~= da.children_of(p).push(c));
        assert forall|j: int|
            0 <= j < da.nodes.len() && j != p implies #[trigger] db.children_of(j)
            == da.children_of(j) by {
            if j == c {
                assert(db.nodes[c].children == da.nodes[c].children);
            } else {
                assert(db.nodes[j] == da.nodes[j]);
            }
        }
        assert forall|k: int| 0 <= k < i implies lockstep_from(
            db,
            #[trigger] db.children_of(p)[k],
            cs[k],
            p + 1,
        ) by {
            assert(da.children_of(p) == d.children_of(p));
            assert(d.children_of(p)[k] == db.children_of(p)[k]);
            lemma_lockstep_frame(d, da, d.children_of(p)[k], cs[k], p + 1);
            lemma_lockstep_frame_except(da, db, da.children_of(p)[k], cs[k], p + 1, p);
        }
        assert(lockstep_from(db, c, cs[i], p + 1)) by {
            lemma_lockstep_weaken(da, c, cs[i], d.nodes.len() as int, p + 1);
            lemma_lockstep_frame_except(da, db, c, cs[i], p + 1, p);
        }
        assert(db.children_of(p).len() == i + 1);
        assert forall|k: int| 0 <= k < i + 1 implies lockstep_from(
            db,
            #[trigger] db.children_of(p)[k],
            cs[k],
            p + 1,
        ) by {
            if k < i {
            } else {
                assert(db.children_of(p)[k] == c);
            }
        }
        lemma_mat_children_m(db, p, cs, i + 1);
        assert(mat_children_m(d, p, cs, i) == mat_children_m(db, p, cs, i + 1));
    }
}

/// Like the frame rule, but one node below the floor (so never inside the
/// subtree) may have its children changed.
proof fn lemma_lockstep_frame_except(
    d1: DomM,
    d2: DomM,
    n: int,
    v: ViewM,
    base: int,
    except: int,
)
    requires
        lockstep_from(d1, n, v, base),
        d2.nodes.len() >= d1.nodes.len(),
        except < base,
        forall|j: int|
            base <= j < d1.nodes.len() && j != except ==> #[trigger] d2.children_of(j)
                == d1.children_of(j),
    ensures
        lockstep_from(d2, n, v, base),
    decreases v,
{
    assert(n != except);
    assert(d2.children_of(n) == d1.children_of(n));
    assert forall|i: int| 0 <= i < v.spec_children().len() implies lockstep_from(
        d2,
        d2.children_of(n)[i],
        #[trigger] v.spec_children()[i],
        n + 1,
    ) by {
        lemma_lockstep_frame_except(
            d1,
            d2,
            d1.children_of(n)[i],
            v.spec_children()[i],
            n + 1,
            except,
        );
    }
}

/// Materializes the subtree `view` in the document: a text leaf becomes a
/// text-bearing `span`, an element is created and its children are
/// materialized and appended in order. The produced root is detached and
/// not yet registered.
#[verifier::loop_isolation(false)]
fn materialize_view(dom: &mut Dom, view: &RawView) -> (r: NodeRef)
    requires
        old(dom)@.wf(),
    ensures
        final(dom)@ == mat_m(old(dom)@, view@).0,
        r.index() == mat_m(old(dom)@, view@).1,
        final(dom)@.wf(),
        r.index() == old(dom)@.nodes.len(),
        old(dom)@.nodes.len() < final(dom)@.nodes.len(),
        final(dom)@.listeners == old(dom)@.listeners,
        forall|j: int| 0 <= j < old(dom)@.nodes.len() ==> final(dom)@.nodes[j] == old(dom)@.nodes[j],
        final(dom)@.parent_of(r.index()) is None,
        lockstep_from(final(dom)@, r.index(), view@, old(dom)@.nodes.len() as int),
    decreases view,
{
    proof {
        lemma_mat_m(old(dom)@, view@);
    }
    match view {
        RawView::Text(text) => {
            proof {
                reveal_strlit("span");
            }
            let kind = String::from_str("span");
            proof {
                assert(kind@ =~= span_kind());
            }
            let n = dom.create_element(&kind);
            dom.set_text_content(n, text);
            n
        },
        RawView::Data { kind, children, .. } => {
            let n = dom.create_element(kind);
            let ghost d1 = dom@;
            let ghost cs = view@.spec_children();
            let mut i: usize = 0;
            while i < children.len()
                invariant
                    old(dom)@.wf(),
                    i <= children@.len(),
                    cs == view@.spec_children(),
                    cs.len() == children@.len(),
                    forall|k: int| 0 <= k < cs.len() ==> cs[k] == view_m(#[trigger] children@[k]),
                    dom@.wf(),
                    n.index() < dom@.nodes.len(),
                    d1.nodes.len() <= dom@.nodes.len(),
                    n.index() == d1.nodes.len() - 1,
                    mat_children_m(dom@, n.index(), cs, i as int) == mat_children_m(
                        d1,
                        n.index(),
                        cs,
                        0,
                    ),
                decreases children@.len() - i,
            {
                proof {
                    assert(decreases_to!(*view => *children));
                    assert(decreases_to!(*children => (*children)[i as int]));
                    lemma_mat_m(dom@, cs[i as int]);
                }
                let c = materialize_view(dom, &children[i]);
                dom.append_child(n, c);
                i = i + 1;
            }
            n
        },
    }
}

/// Why a transaction was aborted: the engine and the upstream differ have
/// diverged.
#[derive(Clone, Copy, Debug, PartialEq, Eq, Structural)]
pub enum PatchError {
    /// A patch addressed an id with no materialized node.
    MissingNode,
    /// A node that had to be detached or replaced has no parent.
    MissingParent,
    /// A reorder named a snapshot position that does not exist.
    IndexOutOfRange,
    /// A reorder wanted to insert before a child that is no longer there,
    /// or to reuse a node that is already back in the tree.
    StaleReorder,
    /// A property unset named a key with no previous value.
    MissingPreviousProp,
    /// A removal entry's view has fewer children than the node it
    /// describes.
    ShapeMismatch,
}

/// The key under which structural attributes travel.
pub open spec fn attrs_key() -> Seq<char> {
    seq!['a', 't', 't', 'r', 'i', 'b', 'u', 't', 'e', 's']
}

/// The key under which structural styles travel.
pub open spec fn style_key() -> Seq<char> {
    seq!['s', 't', 'y', 'l', 'e']
}

/// The event name without its `on` prefix; a name without the prefix
/// stays as it is.
pub open spec fn spec_strip_on(s: Seq<char>) -> Seq<char> {
    if s.len() >= 2 && s[0] == 'o' && s[1] == 'n' {
        s.skip(2)
    } else {
        s
    }
}

/// The document after removing, in order, every attribute key that the
/// previous `attributes` object listed, from position `i` on.
pub open spec fn unset_attrs_m(d: DomM, n: int, o: PropsM, i: int) -> DomM
    decreases o.len() - i,
{
    if i < 0 || i >= o.len() {
        d
    } else {
        let d1 = d.upd_node(
            n,
            NodeM { attributes: props_remove(d.nodes[n].attributes, o[i].0), ..d.nodes[n] },
        );
        unset_attrs_m(d1, n, o, i + 1)
    }
}

/// The document after clearing, in order, every style key that the
/// previous `style` object listed, from position `i` on.
pub open spec fn clear_styles_m(d: DomM, n: int, o: PropsM, i: int) -> DomM
    decreases o.len() - i,
{
    if i < 0 || i >= o.len() {
        d
    } else {
        let d1 = d.upd_node(
            n,
            NodeM {
                styles: props_set(d.nodes[n].styles, o[i].0, PropM::Str(Seq::empty())),
                ..d.nodes[n]
            },
        );
        clear_styles_m(d1, n, o, i + 1)
    }
}

/// The document after setting, in order, every attribute that a new
/// `attributes` object lists, from position `i` on.
pub open spec fn set_attrs_m(d: DomM, n: int, o: PropsM, i: int) -> DomM
    decreases o.len() - i,
{
    if i < 0 || i >= o.len() {
        d
    } else {
        let d1 = d.upd_node(
            n,
            NodeM { attributes: props_set(d.nodes[n].attributes, o[i].0, o[i].1), ..d.nodes[n] },
        );
        set_attrs_m(d1, n, o, i + 1)
    }
}

/// The document after assigning, in order, every style entry that a new
/// `style` object lists, from position `i` on.
pub open spec fn set_styles_m(d: DomM, n: int, o: PropsM, i: int) -> DomM
    decreases o.len() - i,
{
    if i < 0 || i >= o.len() {
        d
    } else {
        let d1 = d.upd_node(
            n,
            NodeM { styles: props_set(d.nodes[n].styles, o[i].0, o[i].1), ..d.nodes[n] },
        );
        set_styles_m(d1, n, o, i + 1)
    }
}

/// The document after unsetting the property `key` of node `n`, guided by
/// the previous props: previously listed attributes are removed one by
/// one, previous styles are cleared to the empty string, a plain string
/// resets to the empty string, and anything else resets to null. A key
/// with no previous value is a contract violation.
pub open spec fn remove_prop_m(d: DomM, n: int, key: Seq<char>, prev: PropsM) -> Option<DomM> {
    if !props_has_key(prev, key) {
        Option::None
    } else {
        let pv = props_value(prev, key);
        if key == attrs_key() {
            match pv {
                PropM::Object(o) => Option::Some(unset_attrs_m(d, n, o, 0)),
                _ => Option::Some(d),
            }
        } else if key == style_key() {
            match pv {
                PropM::Object(o) => Option::Some(clear_styles_m(d, n, o, 0)),
                _ => Option::Some(d),
            }
        } else if pv is Str {
            Option::Some(
                d.upd_node(
                    n,
                    NodeM {
                        properties: props_set(
                            d.nodes[n].properties,
                            key,
                            PropM::Str(Seq::empty()),
                        ),
                        ..d.nodes[n]
                    },
                ),
            )
        } else {
            Option::Some(
                d.upd_node(
                    n,
                    NodeM {
                        properties: props_set(d.nodes[n].properties, key, PropM::Null),
                        ..d.nodes[n]
                    },
                ),
            )
        }
    }
}

/// The document after assigning the structural object `value` under
/// `key`: per-key attributes for `attributes`, per-key styles for
/// `style`, the whole value as a plain property otherwise.
pub open spec fn update_props_m(d: DomM, n: int, key: Seq<char>, value: PropM) -> DomM {
    if key == attrs_key() {
        match value {
            PropM::Object(o) => set_attrs_m(d, n, o, 0),
            _ => d,
        }
    } else if key == style_key() {
        match value {
            PropM::Object(o) => set_styles_m(d, n, o, 0),
            _ => d,
        }
    } else {
        d.upd_node(
            n,
            NodeM { properties: props_set(d.nodes[n].properties, key, value), ..d.nodes[n] },
        )
    }
}

/// The document after applying a sparse property diff to node `n`, entry
/// by entry from position `i` on: null unsets guided by `prev`,
/// structural objects recurse per key, and scalars land as attributes in
/// their serialized JSON form.
pub open spec fn apply_props_m(d: DomM, n: int, prev: PropsM, diff: PropsM, i: int) -> Option<
    DomM,
>
    decreases diff.len() - i,
{
    if i < 0 || i >= diff.len() {
        Option::Some(d)
    } else {
        let (key, value) = diff[i];
        let step = if value is Null {
            remove_prop_m(d, n, key, prev)
        } else if value is Object {
            Option::Some(update_props_m(d, n, key, value))
        } else {
            Option::Some(
                d.upd_node(
                    n,
                    NodeM {
                        attributes: props_set(
                            d.nodes[n].attributes,
                            key,
                            PropM::Str(crate::json::json_of(value)),
                        ),
                        ..d.nodes[n]
                    },
                ),
            )
        };
        match step {
            Option::None => Option::None,
            Option::Some(d1) => apply_props_m(d1, n, prev, diff, i + 1),
        }
    }
}

/// The position of the key `k` in the reorder stash, or a negative value.
pub open spec fn stash_index(s: Seq<(Seq<char>, NodeRef)>, k: Seq<char>) -> int
    decreases s.len(),
{
    if s.len() == 0 {
        -1
    } else if s[0].0 == k {
        0
    } else {
        let r = stash_index(s.drop_first(), k);
        if r < 0 {
            -1
        } else {
            r + 1
        }
    }
}

/// The stashed node under the key `k`.
pub open spec fn stash_get(s: Seq<(Seq<char>, NodeRef)>, k: Seq<char>) -> Option<NodeRef> {
    if stash_index(s, k) >= 0 {
        Option::Some(s[stash_index(s, k)].1)
    } else {
        Option::None
    }
}

/// The stash after recording `n` under `k`, overwriting an earlier node
/// with the same key.
pub open spec fn stash_set(s: Seq<(Seq<char>, NodeRef)>, k: Seq<char>, n: NodeRef) -> Seq<
    (Seq<char>, NodeRef),
> {
    if stash_index(s, k) >= 0 {
        s.update(stash_index(s, k), (k, n))
    } else {
        s.push((k, n))
    }
}

/// The remove phase of a reorder: for each listed snapshot position, the
/// child found there is stashed under its key, if it has one, and
/// detached. A position beyond the snapshot is a contract violation.
pub open spec fn order_removes_m(
    d: DomM,
    p: int,
    snap: Seq<int>,
    rs: Seq<(nat, Option<Seq<char>>)>,
    i: int,
    stash: Seq<(Seq<char>, NodeRef)>,
) -> Option<(DomM, Seq<(Seq<char>, NodeRef)>)>
    decreases rs.len() - i,
{
    if i < 0 || i >= rs.len() {
        Option::Some((d, stash))
    } else {
        let (index, keyo) = rs[i];
        if index >= snap.len() {
            Option::None
        } else {
            let c = snap[index as int];
            let stash2 = match keyo {
                Option::Some(k) => stash_set(stash, k, NodeRef { raw: c as usize }),
                Option::None => stash,
            };
            order_removes_m(d.remove_child_m(p, c), p, snap, rs, i + 1, stash2)
        }
    }
}

/// The insert phase of a reorder: each entry whose key was stashed puts
/// the stashed node back, appended when the slot is beyond the running
/// length, else before the snapshot child at that slot; the running
/// length grows with every reinsertion. Entries without a stashed key are
/// skipped. A slot that points past the snapshot, a reference child no
/// longer in place, or a stashed node already back in the tree is a
/// contract violation.
pub open spec fn order_inserts_m(
    d: DomM,
    p: int,
    snap: Seq<int>,
    ins: Seq<(Option<Seq<char>>, nat)>,
    i: int,
    stash: Seq<(Seq<char>, NodeRef)>,
    len: nat,
) -> Option<DomM>
    decreases ins.len() - i,
{
    if i < 0 || i >= ins.len() {
        Option::Some(d)
    } else {
        let (keyo, index) = ins[i];
        match keyo {
            Option::None => order_inserts_m(d, p, snap, ins, i + 1, stash, len),
            Option::Some(k) => match stash_get(stash, k) {
                Option::None => order_inserts_m(d, p, snap, ins, i + 1, stash, len),
                Option::Some(c) => if !d.valid(c.index()) || d.parent_of(c.index()) is Some {
                    Option::None
                } else if index >= len {
                    order_inserts_m(
                        d.append_child_m(p, c.index()),
                        p,
                        snap,
                        ins,
                        i + 1,
                        stash,
                        len + 1,
                    )
                } else if index >= snap.len() {
                    Option::None
                } else {
                    let refn = snap[index as int];
                    if !d.children_of(p).contains(refn) {
                        Option::None
                    } else {
                        order_inserts_m(
                            d.insert_child_m(p, c.index(), d.children_of(p).index_of(refn)),
                            p,
                            snap,
                            ins,
                            i + 1,
                            stash,
                            len + 1,
                        )
                    }
                },
            },
        }
    }
}

/// A whole reorder of the children of `p`: a snapshot is taken once, the
/// remove phase runs over it, then the insert phase puts stashed keyed
/// nodes back.
pub open spec fn apply_order_m(d: DomM, p: int, op: OrderM) -> Option<DomM> {
    let snap = d.children_of(p);
    match order_removes_m(d, p, snap, op.removes, 0, Seq::empty()) {
        Option::None => Option::None,
        Option::Some((d1, stash)) => order_inserts_m(
            d1,
            p,
            snap,
            op.inserts,
            0,
            stash,
            snap.len(),
        ),
    }
}

/// The model of the reorder stash.
pub open spec fn stash_m(s: Seq<(String, NodeRef)>) -> Seq<(Seq<char>, NodeRef)> {
    Seq::new(
        s.len(),
        |i: int|
            if 0 <= i < s.len() {
                (s[i].0@, s[i].1)
            } else {
                (Seq::<char>::empty(), NodeRef { raw: 0 })
            },
    )
}

/// When `k` keys position `i` of the stash and nothing earlier, the first
/// match is `i`.
proof fn lemma_stash_first(s: Seq<(Seq<char>, NodeRef)>, k: Seq<char>, i: int)
    requires
        0 <= i < s.len(),
        s[i].0 == k,
        forall|j: int| 0 <= j < i ==> s[j].0 != k,
    ensures
        stash_index(s, k) == i,
    decreases i,
{
    if i == 0 {
    } else {
        assert(s[0].0 != k);
        let t = s.drop_first();
        assert forall|j: int| 0 <= j < i - 1 implies t[j].0 != k by {
            assert(t[j] == s[j + 1]);
        }
        assert(t[i - 1] == s[i]);
        lemma_stash_first(t, k, i - 1);
    }
}

/// When `k` keys nothing in the stash, there is no first match.
proof fn lemma_stash_none(s: Seq<(Seq<char>, NodeRef)>, k: Seq<char>)
    requires
        forall|j: int| 0 <= j < s.len() ==> s[j].0 != k,
    ensures
        stash_index(s, k) < 0,
    decreases s.len(),
{
    if s.len() > 0 {
        let t = s.drop_first();
        assert forall|j: int| 0 <= j < t.len() implies t[j].0 != k by {
            assert(t[j] == s[j + 1]);
        }
        lemma_stash_none(t, k);
    }
}

/// Records `node` under `key` in the reorder stash, overwriting an
/// earlier node with the same key.
#[verifier::loop_isolation(false)]
fn stash_put(stash: &mut Vec<(String, NodeRef)>, key: String, node: NodeRef)
    ensures
        stash_m(final(stash)@) == stash_set(stash_m(old(stash)@), key@, node),
{
    let ghost m0 = stash_m(stash@);
    let mut i: usize = 0;
    while i < stash.len()
        invariant
            i <= stash@.len(),
            stash@ == old(stash)@,
            forall|j: int| 0 <= j < i ==> m0[j].0 != key@,
        decreases stash@.len() - i,
    {
        if stash[i].0 == key {
            proof {
                assert(m0[i as int].0 == key@);
                lemma_stash_first(m0, key@, i as int);
            }
            let ghost p0 = stash@;
            stash.remove(i);
            stash.insert(i, (key, node));
            proof {
                assert(stash@ =~= p0.update(i as int, stash@[i as int]));
                assert(stash_m(stash@) =~= stash_set(m0, key@, node));
            }
            return ;
        }
        i = i + 1;
    }
    proof {
        lemma_stash_none(m0, key@);
    }
    stash.push((key, node));
    proof {
        assert(stash_m(stash@) =~= stash_set(m0, key@, node));
    }
}

/// Looks the key up in the reorder stash.
#[verifier::loop_isolation(false)]
fn stash_find(stash: &Vec<(String, NodeRef)>, key: &String) -> (r: Option<NodeRef>)
    ensures
        r == stash_get(stash_m(stash@), key@),
{
    let ghost m0 = stash_m(stash@);
    let mut i: usize = 0;
    while i < stash.len()
        invariant
            i <= stash@.len(),
            forall|j: int| 0 <= j < i ==> m0[j].0 != key@,
        decreases stash@.len() - i,
    {
        if stash[i].0 == *key {
            proof {
                assert(m0[i as int].0 == key@);
                lemma_stash_first(m0, key@, i as int);
            }
            return Option::Some(stash[i].1);
        }
        i = i + 1;
    }
    proof {
        lemma_stash_none(m0, key@);
    }
    Option::None
}

/// The event name without its `on` prefix; a name without the prefix
/// stays as it is.
fn strip_on(name: &String) -> (r: String)
    ensures
        r@ == spec_strip_on(name@),
{
    let n = name.as_str().unicode_len();
    if n >= 2 {
        let c0 = name.as_str().get_char(0);
        let c1 = name.as_str().get_char(1);
        if c0 == 'o' && c1 == 'n' {
            let rest = name.as_str().substring_char(2, n);
            let r = rest.to_owned();
            proof {
                assert(r@ =~= spec_strip_on(name@));
            }
            return r;
        }
    }
    name.clone()
}

/// Unsets the property `key` of node `node`, guided by the previous
/// props: previously listed attributes are removed, previous styles are
/// cleared, a plain string resets to the empty string, anything else
/// resets to null.
#[verifier::loop_isolation(false)]
fn remove_prop(dom: &mut Dom, node: NodeRef, key: &String, prev_props: &Props) -> (r: Result<
    (),
    PatchError,
>)
    requires
        old(dom)@.wf(),
        old(dom)@.valid(node.index()),
        props_wf(prev_props@),
    ensures
        final(dom)@.wf(),
        final(dom)@.nodes.len() == old(dom)@.nodes.len(),
        match r {
            Result::Ok(u) => Option::Some(final(dom)@) == remove_prop_m(
                old(dom)@,
                node.index(),
                key@,
                prev_props@,
            ),
            Result::Err(e) => remove_prop_m(old(dom)@, node.index(), key@, prev_props@) is None
                && e == PatchError::MissingPreviousProp && final(dom)@ == old(dom)@,
        },
{
    proof {
        reveal_strlit("attributes");
        reveal_strlit("style");
    }
    let ghost d0 = dom@;
    let ghost n = node.index();
    let prev_opt = prev_props.get(key);
    match prev_opt {
        Option::None => Result::Err(PatchError::MissingPreviousProp),
        Option::Some(prev_prop) => {
            let attrs_name = String::from_str("attributes");
            let style_name = String::from_str("style");
            proof {
                assert(attrs_name@ =~= attrs_key());
                assert(style_name@ =~= style_key());
            }
            if *key == attrs_name {
                match prev_prop {
                    Prop::Object(map) => {
                        let ghost o = prev_prop@->Object_0;
                        proof {
                            crate::prop::lemma_props_m(*map);
                        }
                        let mut i: usize = 0;
                        while i < map.entries.len()
                            invariant
                                dom@.wf(),
                                dom@.valid(n),
                                dom@.nodes.len() == d0.nodes.len(),
                                i <= map.entries@.len(),
                                o.len() == map.entries@.len(),
                                forall|k2: int|
                                    0 <= k2 < o.len() ==> o[k2].0 == (
                                    #[trigger] map.entries@[k2].0@),
                                unset_attrs_m(dom@, n, o, i as int) == unset_attrs_m(d0, n, o, 0),
                            decreases map.entries@.len() - i,
                        {
                            dom.remove_attribute(node, &map.entries[i].0);
                            i = i + 1;
                        }
                        proof {
                            assert(Option::Some(dom@) == remove_prop_m(d0, n, key@, prev_props@));
                        }
                        Result::Ok(())
                    },
                    _ => {
                        proof {
                            assert(Option::Some(dom@) == remove_prop_m(d0, n, key@, prev_props@));
                        }
                        Result::Ok(())
                    },
                }
            } else if *key == style_name {
                match prev_prop {
                    Prop::Object(map) => {
                        let ghost o = prev_prop@->Object_0;
                        proof {
                            crate::prop::lemma_props_m(*map);
                        }
                        let mut i: usize = 0;
                        while i < map.entries.len()
                            invariant
                                dom@.wf(),
                                dom@.valid(n),
                                dom@.nodes.len() == d0.nodes.len(),
                                i <= map.entries@.len(),
                                o.len() == map.entries@.len(),
                                forall|k2: int|
                                    0 <= k2 < o.len() ==> o[k2].0 == (
                                    #[trigger] map.entries@[k2].0@),
                                clear_styles_m(dom@, n, o, i as int) == clear_styles_m(
                                    d0,
                                    n,
                                    o,
                                    0,
                                ),
                            decreases map.entries@.len() - i,
                        {
                            dom.set_style(node, map.entries[i].0.clone(), Prop::Str(String::new()));
                            i = i + 1;
                        }
                        proof {
                            assert(Option::Some(dom@) == remove_prop_m(d0, n, key@, prev_props@));
                        }
                        Result::Ok(())
                    },
                    _ => {
                        proof {
                            assert(Option::Some(dom@) == remove_prop_m(d0, n, key@, prev_props@));
                        }
                        Result::Ok(())
                    },
                }
            } else if prev_prop.is_string() {
                dom.set_property(node, key.clone(), Prop::Str(String::new()));
                proof {
                    assert(Option::Some(dom@) == remove_prop_m(d0, n, key@, prev_props@));
                }
                Result::Ok(())
            } else {
                dom.set_property(node, key.clone(), Prop::Null);
                proof {
                    assert(Option::Some(dom@) == remove_prop_m(d0, n, key@, prev_props@));
                }
                Result::Ok(())
            }
        },
    }
}

/// Assigns the value under `key`: per-key attributes for `attributes`,
/// per-key styles for `style`, the whole value as a plain property
/// otherwise.
#[verifier::loop_isolation(false)]
fn update_props(dom: &mut Dom, node: NodeRef, key: &String, value: &Prop)
    requires
        old(dom)@.wf(),
        old(dom)@.valid(node.index()),
    ensures
        final(dom)@.wf(),
        final(dom)@.nodes.len() == old(dom)@.nodes.len(),
        final(dom)@ == update_props_m(old(dom)@, node.index(), key@, value@),
{
    proof {
        reveal_strlit("attributes");
        reveal_strlit("style");
    }
    let ghost d0 = dom@;
    let ghost n = node.index();
    let attrs_name = String::from_str("attributes");
    let style_name = String::from_str("style");
    proof {
        assert(attrs_name@ =~= attrs_key());
        assert(style_name@ =~= style_key());
    }
    if *key == attrs_name {
        match value {
            Prop::Object(map) => {
                let ghost o = value@->Object_0;
                proof {
                    crate::prop::lemma_props_m(*map);
                }
                let mut i: usize = 0;
                while i < map.entries.len()
                    invariant
                        dom@.wf(),
                        dom@.valid(n),
                        dom@.nodes.len() == d0.nodes.len(),
                        i <= map.entries@.len(),
                        o.len() == map.entries@.len(),
                        forall|k2: int|
                            0 <= k2 < o.len() ==> o[k2] == (
                                #[trigger] map.entries@[k2].0@,
                                crate::prop::prop_m(map.entries@[k2].1),
                            ),
                        set_attrs_m(dom@, n, o, i as int) == set_attrs_m(d0, n, o, 0),
                    decreases map.entries@.len() - i,
                {
                    let v = map.entries[i].1.duplicate();
                    dom.set_attribute(node, map.entries[i].0.clone(), v);
                    i = i + 1;
                }
                proof {
                    assert(dom@ == update_props_m(d0, n, key@, value@));
                }
            },
            _ => {
                proof {
                    assert(dom@ == update_props_m(d0, n, key@, value@));
                }
            },
        }
    } else if *key == style_name {
        match value {
            Prop::Object(map) => {
                let ghost o = value@->Object_0;
                proof {
                    crate::prop::lemma_props_m(*map);
                }
                let mut i: usize = 0;
                while i < map.entries.len()
                    invariant
                        dom@.wf(),
                        dom@.valid(n),
                        dom@.nodes.len() == d0.nodes.len(),
                        i <= map.entries@.len(),
                        o.len() == map.entries@.len(),
                        forall|k2: int|
                            0 <= k2 < o.len() ==> o[k2] == (
                                #[trigger] map.entries@[k2].0@,
                                crate::prop::prop_m(map.entries@[k2].1),
                            ),
                        set_styles_m(dom@, n, o, i as int) == set_styles_m(d0, n, o, 0),
                    decreases map.entries@.len() - i,
                {
                    let v = map.entries[i].1.duplicate();
                    dom.set_style(node, map.entries[i].0.clone(), v);
                    i = i + 1;
                }
                proof {
                    assert(dom@ == update_props_m(d0, n, key@, value@));
                }
            },
            _ => {
                proof {
                    assert(dom@ == update_props_m(d0, n, key@, value@));
                }
            },
        }
    } else {
        let v = value.duplicate();
        dom.set_property(node, key.clone(), v);
        proof {
            assert(dom@ == update_props_m(d0, n, key@, value@));
        }
    }
}

/// Applies a sparse property diff to `node`, entry by entry: null unsets
/// guided by `prev`, structural objects recurse per key, scalars land as
/// attributes in their serialized JSON form.
#[verifier::loop_isolation(false)]
fn apply_props(dom: &mut Dom, node: NodeRef, prev: &Props, diff: &Props) -> (r: Result<
    (),
    PatchError,
>)
    requires
        old(dom)@.wf(),
        old(dom)@.valid(node.index()),
        props_wf(prev@),
    ensures
        final(dom)@.wf(),
        final(dom)@.nodes.len() == old(dom)@.nodes.len(),
        match r {
            Result::Ok(u) => Option::Some(final(dom)@) == apply_props_m(
                old(dom)@,
                node.index(),
                prev@,
                diff@,
                0,
            ),
            Result::Err(e) => apply_props_m(old(dom)@, node.index(), prev@, diff@, 0) is None,
        },
{
    let ghost d0 = dom@;
    let ghost n = node.index();
    let ghost dm = diff@;
    proof {
        crate::prop::lemma_props_m(*diff);
    }
    let mut i: usize = 0;
    while i < diff.entries.len()
        invariant
            dom@.wf(),
            dom@.valid(n),
            dom@.nodes.len() == d0.nodes.len(),
            i <= diff.entries@.len(),
            dm.len() == diff.entries@.len(),
            forall|k2: int|
                0 <= k2 < dm.len() ==> dm[k2] == (
                    #[trigger] diff.entries@[k2].0@,
                    crate::prop::prop_m(diff.entries@[k2].1),
                ),
            apply_props_m(dom@, n, prev@, dm, i as int) == apply_props_m(d0, n, prev@, dm, 0),
        decreases diff.entries@.len() - i,
    {
        let key = &diff.entries[i].0;
        let value = &diff.entries[i].1;
        if value.is_null() {
            let step = remove_prop(dom, node, key, prev);
            match step {
                Result::Ok(_) => {},
                Result::Err(e) => {
                    proof {
                        assert(apply_props_m(d0, n, prev@, dm, 0) is None);
                    }
                    return Result::Err(e);
                },
            }
        } else if value.is_object() {
            update_props(dom, node, key, value);
        } else {
            let txt = crate::json::to_json_string(value);
            dom.set_attribute(node, key.clone(), Prop::Str(txt));
        }
        i = i + 1;
    }
    Result::Ok(())
}

/// Reorders the children of `parent` in two phases over a one-time
/// snapshot: the remove phase detaches each listed position, stashing
/// keyed children, then the insert phase puts stashed nodes back at
/// their slots.
#[verifier::loop_isolation(false)]
fn apply_order(dom: &mut Dom, parent: NodeRef, order: &Order) -> (r: Result<(), PatchError>)
    requires
        old(dom)@.wf(),
        old(dom)@.valid(parent.index()),
    ensures
        final(dom)@.wf(),
        final(dom)@.nodes.len() == old(dom)@.nodes.len(),
        match r {
            Result::Ok(u) => Option::Some(final(dom)@) == apply_order_m(
                old(dom)@,
                parent.index(),
                order@,
            ),
            Result::Err(e) => apply_order_m(old(dom)@, parent.index(), order@) is None,
        },
{
    let ghost d0 = dom@;
    let ghost p = parent.index();
    let ghost snap = d0.children_of(p);
    let ghost rsm = order@.removes;
    let ghost insm = order@.inserts;
    let snapshot = dom.child_nodes(parent);
    let mut stash: Vec<(String, NodeRef)> = Vec::new();
    proof {
        assert(stash_m(stash@) =~= Seq::<(Seq<char>, NodeRef)>::empty());
    }
    let mut i: usize = 0;
    while i < order.removes.len()
        invariant
            dom@.wf(),
            dom@.valid(p),
            dom@.nodes.len() == d0.nodes.len(),
            i <= order.removes@.len(),
            rsm.len() == order.removes@.len(),
            snap.len() == snapshot@.len(),
            forall|k2: int|
                0 <= k2 < snap.len() ==> snap[k2] == (#[trigger] snapshot@[k2]).index(),
            forall|k2: int| 0 <= k2 < snap.len() ==> d0.valid(#[trigger] snap[k2]),
            order_removes_m(dom@, p, snap, rsm, i as int, stash_m(stash@)) == order_removes_m(
                d0,
                p,
                snap,
                rsm,
                0,
                Seq::empty(),
            ),
        decreases order.removes@.len() - i,
    {
        let index = order.removes[i].0;
        if index >= snapshot.len() {
            proof {
                assert(rsm[i as int].0 == index as nat);
                assert(order_removes_m(d0, p, snap, rsm, 0, Seq::empty()) is None);
                assert(apply_order_m(d0, p, order@) is None);
            }
            return Result::Err(PatchError::IndexOutOfRange);
        }
        let child = snapshot[index];
        proof {
            assert(snap[index as int] == child.index());
            assert((NodeRef { raw: snap[index as int] as usize }) == child);
        }
        match &order.removes[i].1 {
            Option::Some(k) => {
                stash_put(&mut stash, k.clone(), child);
            },
            Option::None => {},
        }
        dom.remove_child(parent, child);
        i = i + 1;
    }
    let ghost d1 = dom@;
    let ghost stm = stash_m(stash@);
    proof {
        assert(order_removes_m(d0, p, snap, rsm, 0, Seq::empty()) == Option::Some((d1, stm)));
    }
    let mut len: u128 = snapshot.len() as u128;
    let mut j: usize = 0;
    while j < order.inserts.len()
        invariant
            dom@.wf(),
            dom@.valid(p),
            dom@.nodes.len() == d0.nodes.len(),
            j <= order.inserts@.len(),
            insm.len() == order.inserts@.len(),
            snap.len() == snapshot@.len(),
            forall|k2: int|
                0 <= k2 < snap.len() ==> snap[k2] == (#[trigger] snapshot@[k2]).index(),
            len <= snap.len() + j,
            order_inserts_m(dom@, p, snap, insm, j as int, stm, len as nat) == order_inserts_m(
                d1,
                p,
                snap,
                insm,
                0,
                stm,
                snap.len(),
            ),
        decreases order.inserts@.len() - j,
    {
        let index = order.inserts[j].1;
        match &order.inserts[j].0 {
            Option::Some(k) => {
                proof {
                    assert(insm[j as int].0 == Option::Some(k@));
                    assert(insm[j as int].1 == index as nat);
                }
                match stash_find(&stash, k) {
                    Option::Some(node) => {
                        if node.as_raw() >= dom.node_count() {
                            proof {
                                assert(apply_order_m(d0, p, order@) is None);
                            }
                            return Result::Err(PatchError::StaleReorder);
                        }
                        let has_parent = match dom.parent_node(node) {
                            Option::Some(_) => true,
                            Option::None => false,
                        };
                        if has_parent {
                            proof {
                                assert(apply_order_m(d0, p, order@) is None);
                            }
                            return Result::Err(PatchError::StaleReorder);
                        }
                        if (index as u128) >= len {
                            dom.append_child(parent, node);
                        } else if index >= snapshot.len() {
                            proof {
                                assert(apply_order_m(d0, p, order@) is None);
                            }
                            return Result::Err(PatchError::IndexOutOfRange);
                        } else {
                            let refn = snapshot[index];
                            match dom.child_position(parent, refn) {
                                Option::None => {
                                    proof {
                                        assert(snap[index as int] == refn.index());
                                        assert(apply_order_m(d0, p, order@) is None);
                                    }
                                    return Result::Err(PatchError::StaleReorder);
                                },
                                Option::Some(pos) => {
                                    proof {
                                        assert(snap[index as int] == refn.index());
                                    }
                                    dom.insert_child_at(parent, node, pos);
                                },
                            }
                        }
                        len = len + 1;
                    },
                    Option::None => {},
                }
            },
            Option::None => {
                proof {
                    assert(insm[j as int].0 is None);
                }
            },
        }
        j = j + 1;
    }
    proof {
        assert(apply_order_m(d0, p, order@) == Option::Some(dom@));
    }
    Result::Ok(())
}

/// What one patch does to the engine: `Mount` materializes under the
/// container, `Insert` materializes before the sibling one slot past the
/// given index, `Replace` swaps a fresh subtree in, `Order` reorders
/// keyed children, and `Props` applies a sparse property diff. A missing
/// node or parent where one is required is a contract violation.
pub open spec fn apply_patch_m(
    s: PatcherM,
    id: Seq<char>,
    node: Option<NodeRef>,
    p: PatchM,
) -> Option<PatcherM> {
    match p {
        PatchM::Mount(v) => {
            let (d2, ids2, n) = create_node_m(s.dom, s.ids, id, v);
            Option::Some(PatcherM { dom: d2.append_child_m(s.root, n), ids: ids2, ..s })
        },
        PatchM::Insert(cid, index, v) => match node {
            Option::None => Option::None,
            Option::Some(pn) => {
                let (d2, ids2, n) = create_node_m(s.dom, s.ids, cid, v);
                let ch = d2.children_of(pn.index());
                let d3 = if index + 1 < ch.len() {
                    d2.insert_child_m(pn.index(), n, index + 1 as int)
                } else {
                    d2.append_child_m(pn.index(), n)
                };
                Option::Some(PatcherM { dom: d3, ids: ids2, ..s })
            },
        },
        PatchM::Replace(_prev, v) => match node {
            Option::None => Option::None,
            Option::Some(oldn) => match s.dom.parent_of(oldn.index()) {
                Option::None => Option::None,
                Option::Some(par) => {
                    let (d2, ids2, n) = create_node_m(s.dom, s.ids, id, v);
                    Option::Some(
                        PatcherM { dom: d2.replace_child_m(par, n, oldn.index()), ids: ids2, ..s },
                    )
                },
            },
        },
        PatchM::Order(op) => match node {
            Option::None => Option::None,
            Option::Some(pn) => match apply_order_m(s.dom, pn.index(), op) {
                Option::None => Option::None,
                Option::Some(d2) => Option::Some(PatcherM { dom: d2, ..s }),
            },
        },
        PatchM::Props(prev, diff) => match node {
            Option::None => Option::None,
            Option::Some(pn) => match apply_props_m(s.dom, pn.index(), prev, diff, 0) {
                Option::None => Option::None,
                Option::Some(d2) => Option::Some(PatcherM { dom: d2, ..s }),
            },
        },
    }
}

/// The engine after applying one id's patch list in order, against the
/// node resolved once before the list.
pub open spec fn patch_list_m(
    s: PatcherM,
    id: Seq<char>,
    node: Option<NodeRef>,
    ps: Seq<PatchM>,
    i: int,
) -> Option<PatcherM>
    decreases ps.len() - i,
{
    if i < 0 || i >= ps.len() {
        Option::Some(s)
    } else {
        match apply_patch_m(s, id, node, ps[i]) {
            Option::None => Option::None,
            Option::Some(s2) => patch_list_m(s2, id, node, ps, i + 1),
        }
    }
}

/// The engine after the patch phase: each entry's node is resolved, then
/// its patches run in list order.
pub open spec fn patches_phase_m(
    s: PatcherM,
    entries: Seq<(Seq<char>, Seq<PatchM>)>,
    i: int,
) -> Option<PatcherM>
    decreases entries.len() - i,
{
    if i < 0 || i >= entries.len() {
        Option::Some(s)
    } else {
        let (id, list) = entries[i];
        let node = if ids_has_id(s.ids, id) {
            Option::Some(ids_node_of(s.ids, id))
        } else {
            Option::None
        };
        match patch_list_m(s, id, node, list, 0) {
            Option::None => Option::None,
            Option::Some(s2) => patches_phase_m(s2, entries, i + 1),
        }
    }
}

/// The identity map after purging the id `id` and, through the structure
/// of `v`, every descendant id, mirroring the derivation used at mount
/// time. An id that is not registered purges nothing; a view with fewer
/// children than the node it describes is a contract violation.
pub open spec fn purge_m(ids: IdsM, d: DomM, id: Seq<char>, v: ViewM) -> Option<IdsM>
    decreases v, 0int,
{
    if !ids_has_id(ids, id) {
        Option::Some(ids)
    } else {
        let n = ids_node_of(ids, id);
        let ids1 = ids_remove_id(ids, id);
        match v {
            ViewM::Text(_) => Option::Some(ids1),
            ViewM::Data { children, .. } => purge_children_m(
                ids1,
                d,
                n.index(),
                id,
                children,
                0,
                d.children_of(n.index()).len() as int,
            ),
        }
    }
}

/// The identity map after purging the children of the node at `p` (id
/// `pid`), one per document child, each under its derived id.
pub open spec fn purge_children_m(
    ids: IdsM,
    d: DomM,
    p: int,
    pid: Seq<char>,
    cs: Seq<ViewM>,
    i: int,
    count: int,
) -> Option<IdsM>
    decreases cs, count - i,
    via purge_children_m_decreases
{
    if i < 0 || i >= count {
        Option::Some(ids)
    } else if i >= cs.len() {
        Option::None
    } else {
        let cid = spec_view_id(pid, cs[i].spec_key(), i as nat);
        match purge_m(ids, d, cid, cs[i]) {
            Option::None => Option::None,
            Option::Some(ids2) => purge_children_m(ids2, d, p, pid, cs, i + 1, count),
        }
    }
}

#[via_fn]
proof fn purge_children_m_decreases(
    ids: IdsM,
    d: DomM,
    p: int,
    pid: Seq<char>,
    cs: Seq<ViewM>,
    i: int,
    count: int,
) {
    if 0 <= i < count && i < cs.len() {
        assert(decreases_to!(cs => cs[i]));
    }
}

/// What one removal entry does: the node registered under `id`, if any,
/// is detached from its parent (a detached node is a contract violation),
/// then the id and every descendant id derived from `v` are purged.
pub open spec fn remove_step_m(s: PatcherM, id: Seq<char>, v: ViewM) -> Option<PatcherM> {
    let detached = if ids_has_id(s.ids, id) {
        let n = ids_node_of(s.ids, id);
        match s.dom.parent_of(n.index()) {
            Option::None => Option::None,
            Option::Some(par) => Option::Some(
                PatcherM { dom: s.dom.remove_child_m(par, n.index()), ..s },
            ),
        }
    } else {
        Option::Some(s)
    };
    match detached {
        Option::None => Option::None,
        Option::Some(s1) => match purge_m(s1.ids, s1.dom, id, v) {
            Option::None => Option::None,
            Option::Some(ids2) => Option::Some(PatcherM { ids: ids2, ..s1 }),
        },
    }
}

/// The engine after the removal phase, entry by entry.
pub open spec fn removes_phase_m(
    s: PatcherM,
    rs: Seq<(Seq<char>, ViewM)>,
    i: int,
) -> Option<PatcherM>
    decreases rs.len() - i,
{
    if i < 0 || i >= rs.len() {
        Option::Some(s)
    } else {
        match remove_step_m(s, rs[i].0, rs[i].1) {
            Option::None => Option::None,
            Option::Some(s2) => removes_phase_m(s2, rs, i + 1),
        }
    }
}

/// Subscribing to `k`: the first subscriber attaches the one native
/// listener, later ones only raise the count.
pub open spec fn listen_m(ev: EventsM, ls: Seq<Seq<char>>, k: Seq<char>) -> (
    EventsM,
    Seq<Seq<char>>,
) {
    if crate::events::ev_has(ev, k) {
        (crate::events::ev_bump(ev, k), ls)
    } else {
        (ev.push((k, 1nat)), ls.push(k))
    }
}

/// Unsubscribing from `k`: the last subscriber to leave detaches the
/// native listener; an unknown name changes nothing.
pub open spec fn unlisten_m(ev: EventsM, ls: Seq<Seq<char>>, k: Seq<char>) -> (
    EventsM,
    Seq<Seq<char>>,
) {
    if !crate::events::ev_has(ev, k) {
        (ev, ls)
    } else if crate::events::ev_count(ev, k) > 1 {
        (crate::events::ev_drop(ev, k), ls)
    } else {
        (crate::events::ev_drop(ev, k), crate::dom::seq_remove_first(ls, k))
    }
}

/// The delegation table and native listeners after one id's subscription
/// changes, each name stripped of its `on` prefix.
pub open spec fn event_list_m(
    ev: EventsM,
    ls: Seq<Seq<char>>,
    list: Seq<(Seq<char>, bool)>,
    i: int,
) -> (EventsM, Seq<Seq<char>>)
    decreases list.len() - i,
{
    if i < 0 || i >= list.len() {
        (ev, ls)
    } else {
        let k = spec_strip_on(list[i].0);
        let r = if list[i].1 {
            listen_m(ev, ls, k)
        } else {
            unlisten_m(ev, ls, k)
        };
        event_list_m(r.0, r.1, list, i + 1)
    }
}

/// The engine after the event phase: entries whose id resolves to a node
/// apply their subscription changes; the rest are skipped.
pub open spec fn events_phase_m(
    s: PatcherM,
    evs: Seq<(Seq<char>, Seq<(Seq<char>, bool)>)>,
    i: int,
) -> PatcherM
    decreases evs.len() - i,
{
    if i < 0 || i >= evs.len() {
        s
    } else {
        let (id, list) = evs[i];
        let s2 = if ids_has_id(s.ids, id) {
            let r = event_list_m(s.events, s.dom.listeners, list, 0);
            PatcherM { events: r.0, dom: DomM { listeners: r.1, ..s.dom }, ..s }
        } else {
            s
        };
        events_phase_m(s2, evs, i + 1)
    }
}

/// What one whole transaction does to the engine: the patch phase, the
/// removal phase, then the event phase, in that fixed order.
pub open spec fn txn_apply_m(s: PatcherM, t: TransactionM) -> Option<PatcherM> {
    match patches_phase_m(s, t.patches, 0) {
        Option::None => Option::None,
        Option::Some(s1) => match removes_phase_m(s1, t.removes, 0) {
            Option::None => Option::None,
            Option::Some(s2) => Option::Some(events_phase_m(s2, t.events, 0)),
        },
    }
}

/// Dropping an id keeps every handle in the map a live node.
proof fn lemma_ids_remove_id_valid(m: IdsM, k: Seq<char>, d: DomM)
    requires
        forall|i: int| 0 <= i < m.len() ==> d.valid((#[trigger] m[i]).1.index()),
    ensures
        forall|i: int|
            0 <= i < ids_remove_id(m, k).len() ==> d.valid(
                (#[trigger] ids_remove_id(m, k)[i]).1.index(),
            ),
{
    let m1 = ids_remove_id(m, k);
    assert forall|i: int| 0 <= i < m1.len() implies d.valid((#[trigger] m1[i]).1.index()) by {
        if ids_has_id(m, k) {
            let w = crate::nodes_ids::ids_id_index(m, k);
            let i0 = if i < w {
                i
            } else {
                i + 1
            };
            assert(m1[i] == m[i0]);
        }
    }
}

/// Purges the identity map for `id` and every descendant id derived from
/// the structure of `view`, walking the document children of the
/// registered node in the same order as materialization did.
#[verifier::loop_isolation(false)]
fn remove_child_nodes_id(dom: &Dom, ids: &mut NodesIds, id: &String, view: &RawView) -> (r: Result<
    (),
    PatchError,
>)
    requires
        dom@.wf(),
        old(ids).wf(),
        forall|i: int| 0 <= i < old(ids)@.len() ==> dom@.valid((#[trigger] old(ids)@[i]).1.index()),
    ensures
        final(ids).wf(),
        forall|i: int|
            0 <= i < final(ids)@.len() ==> dom@.valid((#[trigger] final(ids)@[i]).1.index()),
        match r {
            Result::Ok(u) => Option::Some(final(ids)@) == purge_m(old(ids)@, dom@, id@, view@),
            Result::Err(e) => purge_m(old(ids)@, dom@, id@, view@) is None && e
                == PatchError::ShapeMismatch,
        },
    decreases view,
{
    let ghost m0 = ids@;
    let node_opt = ids.remove_id(id);
    proof {
        lemma_ids_remove_id_valid(m0, id@, dom@);
    }
    match node_opt {
        Option::None => Result::Ok(()),
        Option::Some(node) => {
            proof {
                let w = crate::nodes_ids::ids_id_index(m0, id@);
                assert(m0[w].1 == node);
                assert(dom@.valid(node.index()));
            }
            match view {
                RawView::Data { children, .. } => {
                    let ghost ids1 = ids@;
                    let ghost cs = view@.spec_children();
                    let ghost count = dom@.children_of(node.index()).len() as int;
                    let dom_count = dom.child_count(node);
                    let mut index: usize = 0;
                    while index < dom_count
                        invariant
                            dom_count == count,
                            index <= dom_count,
                            ids.wf(),
                            forall|i2: int|
                                0 <= i2 < ids@.len() ==> dom@.valid(
                                    (#[trigger] ids@[i2]).1.index(),
                                ),
                            purge_children_m(ids@, dom@, node.index(), id@, cs, index as int, count)
                                == purge_children_m(ids1, dom@, node.index(), id@, cs, 0, count),
                        decreases dom_count - index,
                    {
                        if index >= children.len() {
                            proof {
                                assert(purge_children_m(ids1, dom@, node.index(), id@, cs, 0, count)
                                    is None);
                                assert(purge_m(m0, dom@, id@, view@) is None);
                            }
                            return Result::Err(PatchError::ShapeMismatch);
                        }
                        let child = &children[index];
                        let child_id = view_id(id, child.key(), index);
                        proof {
                            assert(decreases_to!(*view => *children));
                            assert(decreases_to!(*children => (*children)[index as int]));
                            assert(cs[index as int] == view_m(children@[index as int]));
                            assert(child_id@ == spec_view_id(
                                id@,
                                cs[index as int].spec_key(),
                                index as nat,
                            ));
                        }
                        let step = remove_child_nodes_id(dom, ids, &child_id, child);
                        match step {
                            Result::Ok(_) => {},
                            Result::Err(e) => {
                                proof {
                                    assert(purge_m(m0, dom@, id@, view@) is None);
                                }
                                return Result::Err(e);
                            },
                        }
                        index = index + 1;
                    }
                    proof {
                        assert(Option::Some(ids@) == purge_m(m0, dom@, id@, view@));
                    }
                    Result::Ok(())
                },
                _ => {
                    proof {
                        assert(Option::Some(ids@) == purge_m(m0, dom@, id@, view@));
                    }
                    Result::Ok(())
                },
            }
        },
    }
}

/// The identity-map pairs that registering the subtree `v` (node `n`, id
/// `id`) appends, in preorder.
pub open spec fn pairs_m(d: DomM, n: int, id: Seq<char>, v: ViewM) -> IdsM
    decreases v, 0int,
{
    seq![(id, NodeRef { raw: n as usize })] + match v {
        ViewM::Text(_) => Seq::empty(),
        ViewM::Data { children, .. } => pairs_children_m(d, n, id, children, 0),
    }
}

/// The identity-map pairs of the children of `p` (id `pid`) from position
/// `i` on, concatenated in order.
pub open spec fn pairs_children_m(d: DomM, p: int, pid: Seq<char>, cs: Seq<ViewM>, i: int) -> IdsM
    decreases cs, cs.len() - i,
    via pairs_children_m_decreases
{
    if i < 0 || i >= cs.len() {
        Seq::empty()
    } else {
        pairs_m(d, d.children_of(p)[i], spec_view_id(pid, cs[i].spec_key(), i as nat), cs[i])
            + pairs_children_m(d, p, pid, cs, i + 1)
    }
}

#[via_fn]
proof fn pairs_children_m_decreases(d: DomM, p: int, pid: Seq<char>, cs: Seq<ViewM>, i: int) {
    if 0 <= i < cs.len() {
        assert(decreases_to!(cs => cs[i]));
    }
}

/// A prefix of a bijective pair sequence is bijective.
proof fn lemma_ids_wf_sub(s: IdsM, a: int, b: int)
    requires
        ids_wf(s),
        0 <= a <= b <= s.len(),
    ensures
        ids_wf(s.subrange(a, b)),
{
    let t = s.subrange(a, b);
    assert forall|i: int, j: int| 0 <= i < j < t.len() implies t[i].0 != t[j].0 && t[i].1
        != t[j].1 by {
        assert(t[i] == s[a + i]);
        assert(t[j] == s[a + j]);
        assert(s[a + i].0 != s[a + j].0 && s[a + i].1 != s[a + j].1);
    }
}

/// A bijective pair sequence stays bijective when a middle run is taken
/// out.
proof fn lemma_ids_wf_drop_mid(a: IdsM, b: IdsM, c: IdsM)
    requires
        ids_wf(a + b + c),
    ensures
        ids_wf(a + c),
{
    let whole = a + b + c;
    let t = a + c;
    assert forall|i: int, j: int| 0 <= i < j < t.len() implies t[i].0 != t[j].0 && t[i].1
        != t[j].1 by {
        let i0 = if i < a.len() {
            i
        } else {
            i + b.len()
        };
        let j0 = if j < a.len() {
            j
        } else {
            j + b.len()
        };
        assert(t[i] == whole[i0]);
        assert(t[j] == whole[j0]);
        assert(whole[i0].0 != whole[j0].0 && whole[i0].1 != whole[j0].1);
    }
}

/// Registering a pair that is fresh in both directions is a plain append.
proof fn lemma_ids_insert_fresh(m: IdsM, k: Seq<char>, n: NodeRef)
    requires
        !ids_has_id(m, k),
        !ids_has_node(m, n),
    ensures
        ids_insert(m, k, n) == m.push((k, n)),
{
    assert(ids_remove_id(m, k) == m);
    assert(crate::nodes_ids::ids_remove_node(m, n) == m);
}

/// Under a bijective combined map, registering a subtree appends exactly
/// its preorder pairs.
proof fn lemma_reg_append(m: IdsM, d: DomM, n: int, id: Seq<char>, v: ViewM)
    requires
        ids_wf(m + pairs_m(d, n, id, v)),
    ensures
        reg_m(m, d, n, id, v) == m + pairs_m(d, n, id, v),
    decreases v, 0int,
{
    let ps = pairs_m(d, n, id, v);
    let nr = NodeRef { raw: n as usize };
    let whole = m + ps;
    assert(ps[0] == (id, nr));
    assert(whole[m.len() as int] == (id, nr));
    assert(!ids_has_id(m, id)) by {
        if ids_has_id(m, id) {
            let w = crate::nodes_ids::ids_id_index(m, id);
            assert(whole[w] == m[w]);
            assert(whole[w].0 == whole[m.len() as int].0);
        }
    }
    assert(!ids_has_node(m, nr)) by {
        if ids_has_node(m, nr) {
            let w = crate::nodes_ids::ids_node_index(m, nr);
            assert(whole[w] == m[w]);
            assert(whole[w].1 == whole[m.len() as int].1);
        }
    }
    lemma_ids_insert_fresh(m, id, nr);
    let m1 = m.push((id, nr));
    match v {
        ViewM::Text(_) => {
            assert(reg_m(m, d, n, id, v) == m1);
            assert(m1 =~= m + ps);
        },
        ViewM::Data { children, .. } => {
            assert(m1 + pairs_children_m(d, n, id, children, 0) =~= whole);
            lemma_reg_children_append(m1, d, n, id, children, 0);
            assert(reg_m(m, d, n, id, v) == reg_children_m(m1, d, n, id, children, 0));
        },
    }
}

/// Under a bijective combined map, registering a run of children appends
/// exactly their preorder pairs.
proof fn lemma_reg_children_append(m: IdsM, d: DomM, p: int, pid: Seq<char>, cs: Seq<ViewM>, i: int)
    requires
        ids_wf(m + pairs_children_m(d, p, pid, cs, i)),
        0 <= i,
    ensures
        reg_children_m(m, d, p, pid, cs, i) == m + pairs_children_m(d, p, pid, cs, i),
    decreases cs, cs.len() - i,
{
    if i >= cs.len() {
        assert(m + pairs_children_m(d, p, pid, cs, i) =~= m);
    } else {
        let cid = spec_view_id(pid, cs[i].spec_key(), i as nat);
        let cn = d.children_of(p)[i];
        let cp = pairs_m(d, cn, cid, cs[i]);
        let rest = pairs_children_m(d, p, pid, cs, i + 1);
        assert(pairs_children_m(d, p, pid, cs, i) == cp + rest);
        assert((m + (cp + rest)) =~= ((m + cp) + rest));
        lemma_ids_wf_sub(m + (cp + rest), 0, (m.len() + cp.len()) as int);
        assert((m + (cp + rest)).subrange(0, (m.len() + cp.len()) as int) =~= m + cp);
        assert(decreases_to!(cs => cs[i]));
        lemma_reg_append(m, d, cn, cid, cs[i]);
        lemma_reg_children_append(m + cp, d, p, pid, cs, i + 1);
        assert(reg_children_m(m, d, p, pid, cs, i) == reg_children_m(m + cp, d, p, pid, cs, i + 1));
        assert((m + cp) + rest =~= m + (cp + rest));
    }
}

/// Purging a registered subtree takes exactly its preorder pairs back
/// out, wherever they sit in the map.
proof fn lemma_purge_pairs(m1: IdsM, m2: IdsM, d: DomM, n: int, id: Seq<char>, v: ViewM)
    requires
        ids_wf(m1 + pairs_m(d, n, id, v) + m2),
        lockstep_from(d, n, v, 0),
        d.nodes.len() <= usize::MAX,
    ensures
        purge_m(m1 + pairs_m(d, n, id, v) + m2, d, id, v) == Option::Some(m1 + m2),
    decreases v, 0int,
{
    let ps = pairs_m(d, n, id, v);
    let nr = NodeRef { raw: n as usize };
    assert(nr.index() == n);
    let whole = m1 + ps + m2;
    let w = m1.len() as int;
    assert(ps[0] == (id, nr));
    assert(whole[w] == (id, nr));
    assert(ids_has_id(whole, id));
    assert forall|j: int| 0 <= j < whole.len() && j != w implies whole[j].0 != id by {
        if j < w {
            assert(whole[j].0 != whole[w].0);
        } else {
            assert(whole[w].0 != whole[j].0);
        }
    }
    let u = crate::nodes_ids::ids_id_index(whole, id);
    assert(0 <= u < whole.len() && whole[u].0 == id);
    assert(u == w);
    assert(ids_node_of(whole, id) == nr);
    let after = ids_remove_id(whole, id);
    assert(after == whole.remove(w));
    match v {
        ViewM::Text(_) => {
            assert(after =~= m1 + m2);
            assert(purge_m(whole, d, id, v) == Option::Some(after));
        },
        ViewM::Data { children, .. } => {
            let kids = pairs_children_m(d, n, id, children, 0);
            assert(ps =~= seq![(id, nr)] + kids);
            assert(after =~= m1 + kids + m2);
            assert(d.children_of(nr.index()).len() == children.len());
            crate::nodes_ids::lemma_ids_remove_id_wf(whole, id);
            assert forall|k: int| 0 <= k < children.len() implies lockstep_from(
                d,
                d.children_of(n)[k],
                #[trigger] children[k],
                0,
            ) by {
                assert(v.spec_children() == children);
                assert(lockstep_from(d, d.children_of(n)[k], children[k], n + 1));
                lemma_lockstep_weaken(d, d.children_of(n)[k], children[k], n + 1, 0);
            }
            lemma_purge_children_pairs(m1, m2, d, n, id, children, 0);
            assert(purge_m(whole, d, id, v) == purge_children_m(
                after,
                d,
                nr.index(),
                id,
                children,
                0,
                d.children_of(nr.index()).len() as int,
            ));
            assert(purge_children_m(
                m1 + kids + m2,
                d,
                n,
                id,
                children,
                0,
                children.len() as int,
            ) == Option::Some(m1 + m2));
            assert(purge_children_m(
                after,
                d,
                nr.index(),
                id,
                children,
                0,
                d.children_of(nr.index()).len() as int,
            ) == purge_children_m(m1 + kids + m2, d, n, id, children, 0, children.len() as int));
        },
    }
}

/// Purging a run of registered children takes exactly their preorder
/// pairs back out.
proof fn lemma_purge_children_pairs(
    m1: IdsM,
    m2: IdsM,
    d: DomM,
    p: int,
    pid: Seq<char>,
    cs: Seq<ViewM>,
    i: int,
)
    requires
        ids_wf(m1 + pairs_children_m(d, p, pid, cs, i) + m2),
        0 <= i,
        d.nodes.len() <= usize::MAX,
        forall|k: int|
            i <= k < cs.len() ==> lockstep_from(d, d.children_of(p)[k], #[trigger] cs[k], 0),
    ensures
        purge_children_m(
            m1 + pairs_children_m(d, p, pid, cs, i) + m2,
            d,
            p,
            pid,
            cs,
            i,
            cs.len() as int,
        ) == Option::Some(m1 + m2),
    decreases cs, cs.len() - i,
{
    if i >= cs.len() {
        assert(m1 + pairs_children_m(d, p, pid, cs, i) + m2 =~= m1 + m2);
    } else {
        let cid = spec_view_id(pid, cs[i].spec_key(), i as nat);
        let cn = d.children_of(p)[i];
        let cp = pairs_m(d, cn, cid, cs[i]);
        let rest = pairs_children_m(d, p, pid, cs, i + 1);
        assert(pairs_children_m(d, p, pid, cs, i) == cp + rest);
        let whole = m1 + (cp + rest) + m2;
        assert(whole =~= m1 + cp + (rest + m2));
        assert(decreases_to!(cs => cs[i]));
        lemma_purge_pairs(m1, rest + m2, d, cn, cid, cs[i]);
        assert(purge_m(m1 + cp + (rest + m2), d, cid, cs[i]) == Option::Some(m1 + (rest + m2)));
        assert(purge_m(whole, d, cid, cs[i]) == Option::Some(m1 + (rest + m2)));
        assert(m1 + (rest + m2) =~= m1 + rest + m2);
        lemma_ids_wf_drop_mid(m1, cp, rest + m2);
        assert(m1 + (rest + m2) =~= m1 + pairs_children_m(d, p, pid, cs, i + 1) + m2);
        lemma_purge_children_pairs(m1, m2, d, p, pid, cs, i + 1);
        assert(purge_children_m(whole, d, p, pid, cs, i, cs.len() as int) == purge_children_m(
            m1 + rest + m2,
            d,
            p,
            pid,
            cs,
            i + 1,
            cs.len() as int,
        ));
    }
}

/// Mount/purge round trip: materializing a subtree registers exactly its
/// preorder pairs, and a removal entry for the same id and view purges
/// exactly those pairs again, so the identity map, and with it the count
/// of registered ids, returns to its pre-mount value. The freshness of
/// the mounted ids and nodes is what the combined bijection premise says.
pub proof fn lemma_mount_purge_round_trip(m: IdsM, d: DomM, n: int, id: Seq<char>, v: ViewM)
    requires
        ids_wf(m + pairs_m(d, n, id, v)),
        lockstep_from(d, n, v, 0),
        d.nodes.len() <= usize::MAX,
    ensures
        reg_m(m, d, n, id, v) == m + pairs_m(d, n, id, v),
        purge_m(reg_m(m, d, n, id, v), d, id, v) == Option::Some(m),
        purge_m(reg_m(m, d, n, id, v), d, id, v)->Some_0.len() == m.len(),
{
    lemma_reg_append(m, d, n, id, v);
    assert(m + pairs_m(d, n, id, v) + Seq::<(Seq<char>, NodeRef)>::empty() =~= m + pairs_m(
        d,
        n,
        id,
        v,
    ));
    lemma_purge_pairs(m, Seq::empty(), d, n, id, v);
    assert(m + Seq::<(Seq<char>, NodeRef)>::empty() =~= m);
}

/// Registering keeps every handle in the map a live node.
proof fn lemma_ids_insert_valid(m: IdsM, k: Seq<char>, nr: NodeRef, d: DomM)
    requires
        forall|i: int| 0 <= i < m.len() ==> d.valid((#[trigger] m[i]).1.index()),
        d.valid(nr.index()),
    ensures
        forall|i: int|
            0 <= i < ids_insert(m, k, nr).len() ==> d.valid(
                (#[trigger] ids_insert(m, k, nr)[i]).1.index(),
            ),
{
    let m1 = crate::nodes_ids::ids_remove_id(m, k);
    assert forall|i: int| 0 <= i < m1.len() implies d.valid((#[trigger] m1[i]).1.index()) by {
        if crate::nodes_ids::ids_has_id(m, k) {
            let w = crate::nodes_ids::ids_id_index(m, k);
            let i0 = if i < w {
                i
            } else {
                i + 1
            };
            assert(m1[i] == m[i0]);
        }
    }
    let m2 = crate::nodes_ids::ids_remove_node(m1, nr);
    assert forall|i: int| 0 <= i < m2.len() implies d.valid((#[trigger] m2[i]).1.index()) by {
        if crate::nodes_ids::ids_has_node(m1, nr) {
            let w = crate::nodes_ids::ids_node_index(m1, nr);
            let i0 = if i < w {
                i
            } else {
                i + 1
            };
            assert(m2[i] == m1[i0]);
        }
    }
    assert forall|i: int| 0 <= i < m2.push((k, nr)).len() implies d.valid(
        (#[trigger] m2.push((k, nr))[i]).1.index(),
    ) by {
        if i < m2.len() {
            assert(m2.push((k, nr))[i] == m2[i]);
        }
    }
}

/// Registering a materialized subtree keeps every handle in the map a
/// live node.
proof fn lemma_reg_valid(ids: IdsM, d: DomM, n: int, id: Seq<char>, v: ViewM)
    requires
        forall|i: int| 0 <= i < ids.len() ==> d.valid((#[trigger] ids[i]).1.index()),
        lockstep_from(d, n, v, 0),
    ensures
        forall|i: int|
            0 <= i < reg_m(ids, d, n, id, v).len() ==> d.valid(
                (#[trigger] reg_m(ids, d, n, id, v)[i]).1.index(),
            ),
    decreases v, 0int,
{
    let nr = NodeRef { raw: n as usize };
    assert(d.valid(nr.index()));
    lemma_ids_insert_valid(ids, id, nr, d);
    match v {
        ViewM::Text(_) => {
            assert(reg_m(ids, d, n, id, v) == ids_insert(ids, id, nr));
        },
        ViewM::Data { children, .. } => {
            assert forall|k: int| 0 <= k < children.len() implies lockstep_from(
                d,
                d.children_of(n)[k],
                #[trigger] children[k],
                0,
            ) by {
                assert(v.spec_children() == children);
                assert(lockstep_from(d, d.children_of(n)[k], children[k], n + 1));
                lemma_lockstep_weaken(d, d.children_of(n)[k], children[k], n + 1, 0);
            }
            lemma_reg_children_valid(ids_insert(ids, id, nr), d, n, id, children, 0);
            assert(reg_m(ids, d, n, id, v) == reg_children_m(
                ids_insert(ids, id, nr),
                d,
                n,
                id,
                children,
                0,
            ));
        },
    }
}

/// Registering a run of children keeps every handle in the map a live
/// node.
proof fn lemma_reg_children_valid(
    ids: IdsM,
    d: DomM,
    p: int,
    pid: Seq<char>,
    cs: Seq<ViewM>,
    i: int,
)
    requires
        forall|k: int| 0 <= k < ids.len() ==> d.valid((#[trigger] ids[k]).1.index()),
        0 <= i,
        forall|k: int|
            i <= k < cs.len() ==> lockstep_from(d, d.children_of(p)[k], #[trigger] cs[k], 0),
    ensures
        forall|k: int|
            0 <= k < reg_children_m(ids, d, p, pid, cs, i).len() ==> d.valid(
                (#[trigger] reg_children_m(ids, d, p, pid, cs, i)[k]).1.index(),
            ),
    decreases cs, cs.len() - i,
{
    if i < cs.len() {
        let cid = spec_view_id(pid, cs[i].spec_key(), i as nat);
        assert(decreases_to!(cs => cs[i]));
        lemma_reg_valid(ids, d, d.children_of(p)[i], cid, cs[i]);
        let ids1 = reg_m(ids, d, d.children_of(p)[i], cid, cs[i]);
        lemma_reg_children_valid(ids1, d, p, pid, cs, i + 1);
        assert(reg_children_m(ids, d, p, pid, cs, i) == reg_children_m(ids1, d, p, pid, cs, i + 1));
    } else {
        assert(reg_children_m(ids, d, p, pid, cs, i) == ids);
    }
}

/// Walks the freshly materialized subtree in lockstep with its view and
/// registers the derived id of every node, the root under `id` first,
/// then each child in document order.
#[verifier::loop_isolation(false)]
fn set_child_nodes_id(dom: &Dom, ids: &mut NodesIds, node: NodeRef, id: &String, view: &RawView)
    requires
        dom@.wf(),
        old(ids).wf(),
        lockstep_from(dom@, node.index(), view@, 0),
    ensures
        final(ids)@ == reg_m(old(ids)@, dom@, node.index(), id@, view@),
        final(ids).wf(),
    decreases view,
{
    proof {
        assert((NodeRef { raw: node.index() as usize }) == node);
    }
    ids.insert(id.clone(), node);
    let ghost ids1 = ids@;
    match view {
        RawView::Data { children, .. } => {
            let count = dom.child_count(node);
            let ghost cs = view@.spec_children();
            proof {
                assert(count == cs.len());
                assert(cs.len() == children@.len());
            }
            let mut index: usize = 0;
            while index < count
                invariant
                    index <= count,
                    ids.wf(),
                    reg_children_m(ids@, dom@, node.index(), id@, cs, index as int)
                        == reg_children_m(ids1, dom@, node.index(), id@, cs, 0),
                decreases count - index,
            {
                let child_node = dom.child_at(node, index);
                let child = &children[index];
                let child_id = view_id(id, child.key(), index);
                proof {
                    assert(decreases_to!(*view => *children));
                    assert(decreases_to!(*children => (*children)[index as int]));
                    assert(cs[index as int] == view_m(children@[index as int]));
                    assert(child_id@ == spec_view_id(id@, cs[index as int].spec_key(), index as nat));
                    assert(lockstep_from(dom@, child_node.index(), cs[index as int], node.index() + 1));
                    lemma_lockstep_weaken(
                        dom@,
                        child_node.index(),
                        cs[index as int],
                        node.index() + 1,
                        0,
                    );
                }
                set_child_nodes_id(dom, ids, child_node, &child_id, child);
                index = index + 1;
            }
        },
        _ => {},
    }
}

impl Patcher {
    /// The engine is sound.
    pub open spec fn wf(self) -> bool {
        self@.wf()
    }

    /// A fresh engine: an empty document holding one container element
    /// that mounted trees go under, an empty identity map, and no
    /// subscribers.
    pub fn new() -> (r: Patcher)
        ensures
            r.wf(),
            r@.ids.len() == 0,
            r@.events.len() == 0,
            r@.dom.nodes.len() == 1,
            r@.dom.listeners.len() == 0,
            r@.root == 0,
            r@.dom.children_of(r@.root).len() == 0,
    {
        proof {
            reveal_strlit("body");
        }
        let mut dom = Dom::new();
        let kind = String::from_str("body");
        let root = dom.create_element(&kind);
        Patcher { dom, root, events: Events::new(), nodes_ids: NodesIds::new() }
    }

    /// The container node that mounted trees go under.
    pub fn root(&self) -> (r: NodeRef)
        ensures
            r.index() == self@.root,
    {
        self.root
    }

    /// A read-only look at the document.
    pub fn dom(&self) -> (r: &Dom)
        ensures
            r@ == self@.dom,
    {
        &self.dom
    }

    /// A read-only look at the identity map.
    pub fn nodes_ids(&self) -> (r: &NodesIds)
        ensures
            r@ == self@.ids,
            self.wf() ==> r.wf(),
    {
        &self.nodes_ids
    }

    /// How many ids are registered.
    pub fn registered_count(&self) -> (r: usize)
        ensures
            r == self@.ids.len(),
    {
        self.nodes_ids.len()
    }

    /// Materializes `view` and registers the id of every produced node,
    /// `id` at the root. The subtree comes back detached, its slots all
    /// fresh.
    fn create_node(&mut self, id: &String, view: &RawView) -> (r: NodeRef)
        requires
            old(self).wf(),
        ensures
            final(self)@.dom == create_node_m(old(self)@.dom, old(self)@.ids, id@, view@).0,
            final(self)@.ids == create_node_m(old(self)@.dom, old(self)@.ids, id@, view@).1,
            r.index() == create_node_m(old(self)@.dom, old(self)@.ids, id@, view@).2,
            final(self)@.events == old(self)@.events,
            final(self)@.root == old(self)@.root,
            final(self).wf(),
            r.index() == old(self)@.dom.nodes.len(),
            old(self)@.dom.nodes.len() < final(self)@.dom.nodes.len(),
            final(self)@.dom.listeners == old(self)@.dom.listeners,
            forall|j: int|
                0 <= j < old(self)@.dom.nodes.len() ==> final(self)@.dom.nodes[j] == old(
                    self,
                )@.dom.nodes[j],
            final(self)@.dom.parent_of(r.index()) is None,
            lockstep_from(final(self)@.dom, r.index(), view@, 0),
    {
        let ghost d0 = self@.dom;
        let n = materialize_view(&mut self.dom, view);
        proof {
            lemma_lockstep_weaken(self.dom@, n.index(), view@, d0.nodes.len() as int, 0);
        }
        set_child_nodes_id(&self.dom, &mut self.nodes_ids, n, id, view);
        proof {
            lemma_reg_valid(old(self)@.ids, self.dom@, n.index(), id@, view@);
            assert(self@ =~~= (PatcherM {
                dom: create_node_m(d0, old(self)@.ids, id@, view@).0,
                ids: create_node_m(d0, old(self)@.ids, id@, view@).1,
                ..old(self)@
            }));
        }
        n
    }

    /// Applies one patch for `id`, against the node resolved before the
    /// patch list began.
    fn apply_patch(&mut self, id: &String, node: Option<NodeRef>, patch: &Patch) -> (r: Result<
        (),
        PatchError,
    >)
        requires
            old(self).wf(),
            patch@.wf(),
            match node {
                Option::Some(n) => old(self)@.dom.valid(n.index()),
                Option::None => true,
            },
        ensures
            final(self).wf(),
            final(self)@.root == old(self)@.root,
            old(self)@.dom.nodes.len() <= final(self)@.dom.nodes.len(),
            match r {
                Result::Ok(u) => Option::Some(final(self)@) == apply_patch_m(
                    old(self)@,
                    id@,
                    node,
                    patch@,
                ),
                Result::Err(e) => apply_patch_m(old(self)@, id@, node, patch@) is None,
            },
    {
        match patch {
            Patch::Mount(view) => {
                let n = self.create_node(id, view);
                let root = self.root;
                self.dom.append_child(root, n);
                proof {
                    assert(self@ =~~= apply_patch_m(old(self)@, id@, node, patch@)->Some_0);
                }
                Result::Ok(())
            },
            Patch::Insert(child_id, index, view) => {
                match node {
                    Option::None => Result::Err(PatchError::MissingNode),
                    Option::Some(pn) => {
                        let n = self.create_node(child_id, view);
                        let ch_len = self.dom.child_count(pn);
                        if ch_len > 0 && *index < ch_len - 1 {
                            self.dom.insert_child_at(pn, n, *index + 1);
                        } else {
                            self.dom.append_child(pn, n);
                        }
                        proof {
                            assert(self@ =~~= apply_patch_m(old(self)@, id@, node, patch@)->Some_0);
                        }
                        Result::Ok(())
                    },
                }
            },
            Patch::Replace(_prev_view, next_view) => {
                match node {
                    Option::None => Result::Err(PatchError::MissingNode),
                    Option::Some(oldn) => {
                        match self.dom.parent_node(oldn) {
                            Option::None => Result::Err(PatchError::MissingParent),
                            Option::Some(par) => {
                                let n = self.create_node(id, next_view);
                                proof {
                                    assert(self@.dom.children_of(par.index()) == old(
                                        self,
                                    )@.dom.children_of(par.index()));
                                    assert(old(self)@.dom.children_of(par.index()).contains(
                                        oldn.index(),
                                    ));
                                }
                                self.dom.replace_child(par, n, oldn);
                                proof {
                                    assert(self@ =~~= apply_patch_m(
                                        old(self)@,
                                        id@,
                                        node,
                                        patch@,
                                    )->Some_0);
                                }
                                Result::Ok(())
                            },
                        }
                    },
                }
            },
            Patch::Order(order) => {
                match node {
                    Option::None => Result::Err(PatchError::MissingNode),
                    Option::Some(pn) => {
                        let step = apply_order(&mut self.dom, pn, order);
                        match step {
                            Result::Ok(_) => {
                                proof {
                                    assert(self@ =~~= apply_patch_m(
                                        old(self)@,
                                        id@,
                                        node,
                                        patch@,
                                    )->Some_0);
                                }
                                Result::Ok(())
                            },
                            Result::Err(e) => Result::Err(e),
                        }
                    },
                }
            },
            Patch::Props(prev_props, diff_props) => {
                match node {
                    Option::None => Result::Err(PatchError::MissingNode),
                    Option::Some(pn) => {
                        let step = apply_props(&mut self.dom, pn, prev_props, diff_props);
                        match step {
                            Result::Ok(_) => {
                                proof {
                                    assert(self@ =~~= apply_patch_m(
                                        old(self)@,
                                        id@,
                                        node,
                                        patch@,
                                    )->Some_0);
                                }
                                Result::Ok(())
                            },
                            Result::Err(e) => Result::Err(e),
                        }
                    },
                }
            },
        }
    }

    /// Applies one transaction: every patch list in order against its
    /// resolved node, then every removal with its identity-map purge,
    /// then every event subscription change. A contract violation aborts
    /// the transaction with the document possibly mid-way, but the engine
    /// stays sound; the transaction is not replayed.
    #[verifier::loop_isolation(false)]
    #[verifier::rlimit(100)]
    pub fn patch(&mut self, transaction: &Transaction) -> (r: Result<(), PatchError>)
        requires
            old(self).wf(),
            transaction@.wf(),
        ensures
            final(self).wf(),
            r is Ok <==> txn_apply_m(old(self)@, transaction@) is Some,
            r is Ok ==> Option::Some(final(self)@) == txn_apply_m(old(self)@, transaction@),
    {
        let ghost s0 = self@;
        let ghost tpm = transaction@.patches;
        let mut i: usize = 0;
        while i < transaction.patches.len()
            invariant
                self.wf(),
                self@.root == s0.root,
                i <= transaction.patches@.len(),
                tpm.len() == transaction.patches@.len(),
                patches_phase_m(self@, tpm, i as int) == patches_phase_m(s0, tpm, 0),
            decreases transaction.patches@.len() - i,
        {
            let id = &transaction.patches[i].0;
            let node = self.nodes_ids.node(id);
            let ghost s_entry = self@;
            let ghost plm = tpm[i as int].1;
            proof {
                assert(tpm[i as int].0 == id@);
                assert(match node {
                    Option::Some(n) => ids_has_id(self@.ids, id@) && n == ids_node_of(
                        self@.ids,
                        id@,
                    ),
                    Option::None => !ids_has_id(self@.ids, id@),
                });
            }
            let mut j: usize = 0;
            while j < transaction.patches[i].1.len()
                invariant
                    self.wf(),
                    self@.root == s0.root,
                    i < transaction.patches@.len(),
                    j <= transaction.patches@[i as int].1@.len(),
                    plm.len() == transaction.patches@[i as int].1@.len(),
                    match node {
                        Option::Some(n) => n.index() < self@.dom.nodes.len(),
                        Option::None => true,
                    },
                    patch_list_m(self@, id@, node, plm, j as int) == patch_list_m(
                        s_entry,
                        id@,
                        node,
                        plm,
                        0,
                    ),
                decreases transaction.patches@[i as int].1@.len() - j,
            {
                proof {
                    assert(plm[j as int] == transaction.patches@[i as int].1@[j as int]@);
                    assert(transaction@.patches[i as int].1[j as int].wf());
                }
                let step = self.apply_patch(id, node, &transaction.patches[i].1[j]);
                match step {
                    Result::Ok(_) => {},
                    Result::Err(e) => {
                        proof {
                            assert(patch_list_m(s_entry, id@, node, plm, 0) is None);
                            assert(patches_phase_m(s0, tpm, 0) is None);
                            assert(txn_apply_m(s0, transaction@) is None);
                        }
                        return Result::Err(e);
                    },
                }
                j = j + 1;
            }
            proof {
                assert(patch_list_m(self@, id@, node, plm, plm.len() as int) == Option::Some(
                    self@,
                ));
            }
            i = i + 1;
        }
        let ghost s1 = self@;
        proof {
            assert(patches_phase_m(s0, tpm, 0) == Option::Some(s1));
        }
        let ghost trm = transaction@.removes;
        let mut k: usize = 0;
        while k < transaction.removes.len()
            invariant
                self.wf(),
                self@.root == s0.root,
                k <= transaction.removes@.len(),
                trm.len() == transaction.removes@.len(),
                removes_phase_m(self@, trm, k as int) == removes_phase_m(s1, trm, 0),
            decreases transaction.removes@.len() - k,
        {
            let id = &transaction.removes[k].0;
            let view = &transaction.removes[k].1;
            proof {
                assert(trm[k as int] == (id@, view_m(*view)));
            }
            let ghost s_entry = self@;
            let node_opt = self.nodes_ids.node(id);
            match node_opt {
                Option::Some(node) => {
                    match self.dom.parent_node(node) {
                        Option::None => {
                            proof {
                                assert(remove_step_m(s_entry, id@, view_m(*view)) is None);
                                assert(removes_phase_m(s1, trm, 0) is None);
                                assert(txn_apply_m(s0, transaction@) is None);
                            }
                            return Result::Err(PatchError::MissingParent);
                        },
                        Option::Some(par) => {
                            self.dom.remove_child(par, node);
                        },
                    }
                },
                Option::None => {},
            }
            let ghost s_mid = self@;
            let step = remove_child_nodes_id(&self.dom, &mut self.nodes_ids, id, view);
            match step {
                Result::Ok(_) => {
                    proof {
                        assert(remove_step_m(s_entry, id@, view_m(*view)) == Option::Some(self@));
                    }
                },
                Result::Err(e) => {
                    proof {
                        assert(remove_step_m(s_entry, id@, view_m(*view)) is None);
                        assert(removes_phase_m(s1, trm, 0) is None);
                        assert(txn_apply_m(s0, transaction@) is None);
                    }
                    return Result::Err(e);
                },
            }
            k = k + 1;
        }
        let ghost s2 = self@;
        proof {
            assert(removes_phase_m(s1, trm, 0) == Option::Some(s2));
        }
        let ghost tem = transaction@.events;
        let mut a: usize = 0;
        while a < transaction.events.len()
            invariant
                self.wf(),
                self@.root == s0.root,
                a <= transaction.events@.len(),
                tem.len() == transaction.events@.len(),
                events_phase_m(self@, tem, a as int) == events_phase_m(s2, tem, 0),
            decreases transaction.events@.len() - a,
        {
            let id = &transaction.events[a].0;
            let ghost s_entry = self@;
            let ghost elm = tem[a as int].1;
            proof {
                assert(tem[a as int].0 == id@);
            }
            let node_opt = self.nodes_ids.node(id);
            match node_opt {
                Option::Some(_node) => {
                    let mut b: usize = 0;
                    while b < transaction.events[a].1.len()
                        invariant
                            self.wf(),
                            self@.root == s0.root,
                            a < transaction.events@.len(),
                            b <= transaction.events@[a as int].1@.len(),
                            elm.len() == transaction.events@[a as int].1@.len(),
                            self@.ids == s_entry.ids,
                            self@.dom.nodes == s_entry.dom.nodes,
                            event_list_m(self@.events, self@.dom.listeners, elm, b as int)
                                == event_list_m(
                                s_entry.events,
                                s_entry.dom.listeners,
                                elm,
                                0,
                            ),
                        decreases transaction.events@[a as int].1@.len() - b,
                    {
                        let name = &transaction.events[a].1[b].0;
                        let value = transaction.events[a].1[b].1;
                        proof {
                            assert(elm[b as int] == (name@, value));
                        }
                        let stripped = strip_on(name);
                        if value {
                            self.events.listen(&stripped, id, &mut self.dom);
                        } else {
                            self.events.unlisten(&stripped, id, &mut self.dom);
                        }
                        b = b + 1;
                    }
                    proof {
                        let r2 = event_list_m(s_entry.events, s_entry.dom.listeners, elm, 0);
                        assert(self@ =~~= (PatcherM {
                            events: r2.0,
                            dom: DomM { listeners: r2.1, ..s_entry.dom },
                            ..s_entry
                        }));
                    }
                },
                Option::None => {},
            }
            a = a + 1;
        }
        proof {
            assert(events_phase_m(self@, tem, tem.len() as int) == self@);
            assert(events_phase_m(s2, tem, 0) == self@);
            assert(txn_apply_m(s0, transaction@) == Option::Some(self@));
        }
        Result::Ok(())
    }

    /// The node registered under `id`.
    pub fn node(&self, id: &String) -> (r: Option<NodeRef>)
        requires
            self.wf(),
        ensures
            match r {
                Option::Some(n) => ids_has_id(self@.ids, id@) && n == ids_node_of(self@.ids, id@),
                Option::None => !ids_has_id(self@.ids, id@),
            },
    {
        self.nodes_ids.node(id)
    }

    /// The id the node `node` is registered under.
    pub fn id(&self, node: &NodeRef) -> (r: Option<String>)
        requires
            self.wf(),
        ensures
            match r {
                Option::Some(id) => ids_has_node(self@.ids, *node) && id@ == ids_id_of(
                    self@.ids,
                    *node,
                ),
                Option::None => !ids_has_node(self@.ids, *node),
            },
    {
        match self.nodes_ids.id(node) {
            Option::Some(s) => Option::Some(s.clone()),
            Option::None => Option::None,
        }
    }
}

} // verus!
