//! The immutable description of a view subtree, and the derivation of
//! virtual-node ids from a parent id, an optional key and a position.

use vstd::prelude::*;
use crate::decimal::{spec_decimal, usize_to_string};
use crate::prop::{prop_m, props_m, props_wf, Prop, PropM, Props, PropsM};

verus! {

/// The mathematical shape of a view subtree.
#[verifier::ext_equal]
pub ghost enum ViewM {
    Text(Seq<char>),
    Data { kind: Seq<char>, key: Option<Seq<char>>, props: PropsM, children: Seq<ViewM> },
}

/// A view subtree: a text leaf, or an element with a tag name, an optional
/// reconciliation key, properties and ordered children.
pub enum RawView {
    Text(String),
    Data { kind: String, key: Option<String>, props: Props, children: Vec<RawView> },
}

/// The model of a view subtree.
pub open spec fn view_m(v: RawView) -> ViewM
    decreases v,
    via view_m_decreases
{
    match v {
        RawView::Text(s) => ViewM::Text(s@),
        RawView::Data { kind, key, props, children } => ViewM::Data {
            kind: kind@,
            key: match key {
                Option::Some(k) => Option::Some(k@),
                Option::None => Option::None,
            },
            props: props_m(props),
            children: Seq::new(
                children@.len(),
                |i: int|
                    if 0 <= i < children@.len() {
                        view_m(children@[i])
                    } else {
                        ViewM::Text(Seq::<char>::empty())
                    },
            ),
        },
    }
}

#[via_fn]
proof fn view_m_decreases(v: RawView) {
    match v {
        RawView::Data { kind, key, props, children } => {
            assert forall|i: int| 0 <= i < children@.len() implies decreases_to!(
                v => children@[i],
            ) by {
                assert(decreases_to!(v => children));
                assert(decreases_to!(children => children[i]));
            };
        },
        _ => {},
    }
}

impl View for RawView {
    type V = ViewM;

    open spec fn view(&self) -> ViewM {
        view_m(*self)
    }
}

impl ViewM {
    /// The reconciliation key of this subtree's root, if it is a keyed element.
    pub open spec fn spec_key(self) -> Option<Seq<char>> {
        match self {
            ViewM::Text(_) => Option::None,
            ViewM::Data { key, .. } => key,
        }
    }

    /// The child subtrees; a text leaf has none.
    pub open spec fn spec_children(self) -> Seq<ViewM> {
        match self {
            ViewM::Text(_) => Seq::empty(),
            ViewM::Data { children, .. } => children,
        }
    }

    /// Every property map in the subtree has pairwise-distinct keys. This
    /// holds of every value whose maps were built through `Props` methods.
    pub open spec fn wf(self) -> bool
        decreases self,
        via ViewM::wf_decreases
    {
        match self {
            ViewM::Text(_) => true,
            ViewM::Data { props, children, .. } => props_wf(props) && forall|i: int|
                0 <= i < children.len() ==> #[trigger] children[i].wf(),
        }
    }

    #[via_fn]
    proof fn wf_decreases(self) {
        match self {
            ViewM::Data { kind, key, props, children } => {
                assert forall|i: int| 0 <= i < children.len() implies decreases_to!(
                    self => children[i],
                ) by {
                    assert(decreases_to!(self => children));
                    assert(decreases_to!(children => children[i]));
                };
            },
            _ => {},
        }
    }
}

impl RawView {
    /// The reconciliation key of this subtree's root.
    pub fn key(&self) -> (r: Option<&String>)
        ensures
            match r {
                Option::Some(k) => self@.spec_key() == Option::Some(k@),
                Option::None => self@.spec_key() is None,
            },
    {
        match self {
            RawView::Text(_) => Option::None,
            RawView::Data { key, .. } => match key {
                Option::Some(k) => Option::Some(k),
                Option::None => Option::None,
            },
        }
    }
}

/// The id segment contributed by one child: its key when it has one, its
/// decimal position otherwise.
pub open spec fn spec_child_id(key: Option<Seq<char>>, index: nat) -> Seq<char> {
    match key {
        Option::Some(k) => k,
        Option::None => spec_decimal(index),
    }
}

/// The id of a child view: the parent id, a dot, and the child's segment.
pub open spec fn spec_view_id(parent: Seq<char>, key: Option<Seq<char>>, index: nat) -> Seq<char> {
    parent + seq!['.'] + spec_child_id(key, index)
}

/// Derives a child's virtual-node id from its parent's id, its optional key
/// and its position, exactly as materialization and removal both do.
pub fn view_id(parent_id: &String, child_key: Option<&String>, index: usize) -> (r: String)
    ensures
        r@ == spec_view_id(
            parent_id@,
            match child_key {
                Option::Some(k) => Option::Some(k@),
                Option::None => Option::None::<Seq<char>>,
            },
            index as nat,
        ),
{
    let mut s = parent_id.clone();
    proof {
        reveal_strlit(".");
        assert("."@ =~= seq!['.']);
    }
    s.append(".");
    match child_key {
        Option::Some(k) => {
            s.append(k.as_str());
        },
        Option::None => {
            let d = usize_to_string(index);
            s.append(d.as_str());
        },
    }
    proof {
        assert(s@ =~= spec_view_id(
            parent_id@,
            match child_key {
                Option::Some(k) => Option::Some(k@),
                Option::None => Option::None::<Seq<char>>,
            },
            index as nat,
        ));
    }
    s
}

} // verus!
