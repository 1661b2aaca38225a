//! Markup text for a view subtree: the bulk-materialization form that a
//! whole subtree is serialized to before being handed to the host's parser.

use vstd::prelude::*;
use crate::decimal::{int_to_string, spec_int_decimal};
use crate::prop::{prop_m, props_m, Prop, PropM, Props, PropsM};
use crate::raw_view::{view_m, RawView, ViewM};

verus! {

/// The markup text of a property value: scalars in display form, array
/// items each followed by a comma, object entries as `key:value;`.
pub open spec fn prop_html(p: PropM) -> Seq<char>
    decreases p,
{
    match p {
        PropM::Null => seq!['n', 'u', 'l', 'l'],
        PropM::Boolean(b) => if b {
            seq!['t', 'r', 'u', 'e']
        } else {
            seq!['f', 'a', 'l', 's', 'e']
        },
        PropM::Number(n) => spec_int_decimal(n),
        PropM::Str(s) => s,
        PropM::Array(a) => arr_html(a),
        PropM::Object(o) => obj_html(o),
    }
}

/// The markup text of array items: each item's text and a comma.
pub open spec fn arr_html(a: Seq<PropM>) -> Seq<char>
    decreases a,
    via arr_html_decreases
{
    if a.len() == 0 {
        Seq::empty()
    } else {
        arr_html(a.drop_last()) + prop_html(a.last()) + seq![',']
    }
}

#[via_fn]
proof fn arr_html_decreases(a: Seq<PropM>) {
    if a.len() > 0 {
        assert(decreases_to!(a => a[a.len() - 1]));
        assert(decreases_to!(a => a.subrange(0, a.len() - 1)));
    }
}

/// The markup text of object entries: `key:value;` for each.
pub open spec fn obj_html(o: PropsM) -> Seq<char>
    decreases o,
    via obj_html_decreases
{
    if o.len() == 0 {
        Seq::empty()
    } else {
        obj_html(o.drop_last()) + o.last().0 + seq![':'] + prop_html(o.last().1) + seq![';']
    }
}

#[via_fn]
proof fn obj_html_decreases(o: PropsM) {
    if o.len() > 0 {
        assert(decreases_to!(o => o[o.len() - 1]));
        assert(decreases_to!(o => o[o.len() - 1].1));
        assert(decreases_to!(o => o.subrange(0, o.len() - 1)));
    }
}

/// The attribute text of a property map: ` key="value"` for each entry.
pub open spec fn props_attr_html(ps: PropsM) -> Seq<char>
    decreases ps,
    via props_attr_html_decreases
{
    if ps.len() == 0 {
        Seq::empty()
    } else {
        props_attr_html(ps.drop_last()) + seq![' '] + ps.last().0 + seq!['=', '"'] + prop_html(
            ps.last().1,
        ) + seq!['"']
    }
}

#[via_fn]
proof fn props_attr_html_decreases(ps: PropsM) {
    if ps.len() > 0 {
        assert(decreases_to!(ps => ps[ps.len() - 1]));
        assert(decreases_to!(ps => ps[ps.len() - 1].1));
        assert(decreases_to!(ps => ps.subrange(0, ps.len() - 1)));
    }
}

/// The markup text of a view subtree: a text leaf as a `span`, an element
/// as its tag with attribute text and the children's text between the
/// tags.
pub open spec fn html_of(v: ViewM) -> Seq<char>
    decreases v,
{
    match v {
        ViewM::Text(s) => seq!['<', 's', 'p', 'a', 'n', '>'] + s + seq![
            '<',
            '/',
            's',
            'p',
            'a',
            'n',
            '>',
        ],
        ViewM::Data { kind, props, children, .. } => seq!['<'] + kind + props_attr_html(props)
            + seq!['>'] + children_html(children) + seq!['<', '/'] + kind + seq!['>'],
    }
}

/// The markup texts of the children, joined in order.
pub open spec fn children_html(cs: Seq<ViewM>) -> Seq<char>
    decreases cs,
    via children_html_decreases
{
    if cs.len() == 0 {
        Seq::empty()
    } else {
        children_html(cs.drop_last()) + html_of(cs.last())
    }
}

#[via_fn]
proof fn children_html_decreases(cs: Seq<ViewM>) {
    if cs.len() > 0 {
        assert(decreases_to!(cs => cs[cs.len() - 1]));
        assert(decreases_to!(cs => cs.subrange(0, cs.len() - 1)));
    }
}

/// A value with a markup form.
pub trait ToHtmlString {
    /// The markup text this value serializes to.
    spec fn spec_html(&self) -> Seq<char>;

    /// Serializes this value to its markup text.
    fn to_html_string(&self) -> (r: String)
        ensures
            r@ == self.spec_html(),
    ;
}

impl ToHtmlString for RawView {
    open spec fn spec_html(&self) -> Seq<char> {
        html_of(view_m(*self))
    }

    fn to_html_string(&self) -> (r: String) {
        html_view(self)
    }
}

/// The markup text of one property value.
#[verifier::loop_isolation(false)]
fn prop_to_html_string(prop: &Prop) -> (r: String)
    ensures
        r@ == prop_html(prop@),
    decreases prop,
{
    match prop {
        Prop::Null => {
            proof {
                reveal_strlit("null");
            }
            let r = String::from_str("null");
            proof {
                assert(r@ =~= prop_html(prop@));
            }
            r
        },
        Prop::Boolean(b) => {
            if *b {
                proof {
                    reveal_strlit("true");
                }
                let r = String::from_str("true");
                proof {
                    assert(r@ =~= prop_html(prop@));
                }
                r
            } else {
                proof {
                    reveal_strlit("false");
                }
                let r = String::from_str("false");
                proof {
                    assert(r@ =~= prop_html(prop@));
                }
                r
            }
        },
        Prop::Number(n) => int_to_string(*n),
        Prop::Str(s) => s.clone(),
        Prop::Array(a) => {
            proof {
                reveal_strlit(",");
            }
            let mut r = String::new();
            let ghost items = prop@->Array_0;
            let mut i: usize = 0;
            proof {
                assert(items.len() == a@.len());
                assert(r@ =~= arr_html(items.take(0)));
            }
            while i < a.len()
                invariant
                    i <= a@.len(),
                    r@ == arr_html(items.take(i as int)),
                decreases a@.len() - i,
            {
                proof {
                    assert(decreases_to!(*prop => *a));
                    assert(decreases_to!(*a => (*a)[i as int]));
                }
                let item = prop_to_html_string(&a[i]);
                r.append(item.as_str());
                r.append(",");
                proof {
                    assert(","@ =~= seq![',']);
                    let pre = items.take(i as int);
                    let cur = items.take(i + 1 as int);
                    assert(cur.drop_last() =~= pre);
                    assert(cur.last() == items[i as int]);
                    assert(r@ =~= arr_html(cur));
                }
                i = i + 1;
            }
            proof {
                assert(items.take(items.len() as int) =~= items);
                assert(r@ =~= prop_html(prop@));
            }
            r
        },
        Prop::Object(ps) => {
            proof {
                reveal_strlit(":");
                reveal_strlit(";");
            }
            let mut r = String::new();
            let ghost entries = prop@->Object_0;
            let n = ps.entries.len();
            let mut i: usize = 0;
            proof {
                crate::prop::lemma_props_m(*ps);
                assert(r@ =~= obj_html(entries.take(0)));
            }
            while i < n
                invariant
                    i <= n,
                    r@ == obj_html(entries.take(i as int)),
                decreases n - i,
            {
                r.append(ps.entries[i].0.as_str());
                r.append(":");
                proof {
                    assert(decreases_to!(*prop => *ps));
                    assert(decreases_to!(*ps => ps.entries));
                    assert(decreases_to!(ps.entries => ps.entries[i as int]));
                    assert(decreases_to!(ps.entries@[i as int] => ps.entries@[i as int].1));
                }
                let item = prop_to_html_string(&ps.entries[i].1);
                r.append(item.as_str());
                r.append(";");
                proof {
                    assert(":"@ =~= seq![':']);
                    assert(";"@ =~= seq![';']);
                    let pre = entries.take(i as int);
                    let cur = entries.take(i + 1 as int);
                    assert(cur.drop_last() =~= pre);
                    assert(cur.last() == entries[i as int]);
                    assert(r@ =~= obj_html(cur));
                }
                i = i + 1;
            }
            proof {
                assert(entries.take(entries.len() as int) =~= entries);
                assert(r@ =~= prop_html(prop@));
            }
            r
        },
    }
}

/// The attribute text of a property map.
#[verifier::loop_isolation(false)]
fn props_to_html_string(props: &Props) -> (r: String)
    ensures
        r@ == props_attr_html(props@),
{
    proof {
        reveal_strlit(" ");
        reveal_strlit("=\"");
        reveal_strlit("\"");
    }
    let mut r = String::new();
    let ghost entries = props@;
    let n = props.entries.len();
    let mut i: usize = 0;
    proof {
        crate::prop::lemma_props_m(*props);
        assert(r@ =~= props_attr_html(entries.take(0)));
    }
    while i < n
        invariant
            i <= n,
            r@ == props_attr_html(entries.take(i as int)),
        decreases n - i,
    {
        r.append(" ");
        r.append(props.entries[i].0.as_str());
        r.append("=\"");
        let item = prop_to_html_string(&props.entries[i].1);
        r.append(item.as_str());
        r.append("\"");
        proof {
            assert(" "@ =~= seq![' ']);
            assert("=\""@ =~= seq!['=', '"']);
            assert("\""@ =~= seq!['"']);
            let pre = entries.take(i as int);
            let cur = entries.take(i + 1 as int);
            assert(cur.drop_last() =~= pre);
            assert(cur.last() == entries[i as int]);
            assert(r@ =~= props_attr_html(cur));
        }
        i = i + 1;
    }
    proof {
        assert(entries.take(entries.len() as int) =~= entries);
    }
    r
}

/// The joined markup texts of an element's children.
#[verifier::loop_isolation(false)]
fn children_to_html_string(children: &Vec<RawView>) -> (r: String)
    ensures
        r@ == children_html(
            Seq::new(
                children@.len(),
                |i: int|
                    if 0 <= i < children@.len() {
                        view_m(children@[i])
                    } else {
                        ViewM::Text(Seq::<char>::empty())
                    },
            ),
        ),
    decreases children,
{
    let ghost cs = Seq::new(
        children@.len(),
        |i: int|
            if 0 <= i < children@.len() {
                view_m(children@[i])
            } else {
                ViewM::Text(Seq::<char>::empty())
            },
    );
    let mut r = String::new();
    let mut i: usize = 0;
    proof {
        assert(r@ =~= children_html(cs.take(0)));
    }
    while i < children.len()
        invariant
            i <= children@.len(),
            r@ == children_html(cs.take(i as int)),
        decreases children@.len() - i,
    {
        proof {
            assert(decreases_to!(*children => (*children)[i as int]));
        }
        let item = html_view(&children[i]);
        r.append(item.as_str());
        proof {
            let pre = cs.take(i as int);
            let cur = cs.take(i + 1 as int);
            assert(cur.drop_last() =~= pre);
            assert(cur.last() == cs[i as int]);
            assert(r@ =~= children_html(cur));
        }
        i = i + 1;
    }
    proof {
        assert(cs.take(cs.len() as int) =~= cs);
    }
    r
}

/// The markup text of a view subtree.
fn html_view(v: &RawView) -> (r: String)
    ensures
        r@ == html_of(v@),
    decreases v,
{
    match v {
        RawView::Text(text) => {
            proof {
                reveal_strlit("<span>");
                reveal_strlit("</span>");
            }
            let mut r = String::from_str("<span>");
            r.append(text.as_str());
            r.append("</span>");
            proof {
                assert("<span>"@ =~= seq!['<', 's', 'p', 'a', 'n', '>']);
                assert("</span>"@ =~= seq!['<', '/', 's', 'p', 'a', 'n', '>']);
                assert(r@ =~= html_of(v@));
            }
            r
        },
        RawView::Data { kind, props, children, .. } => {
            proof {
                reveal_strlit("<");
                reveal_strlit(">");
                reveal_strlit("</");
            }
            let mut r = String::from_str("<");
            r.append(kind.as_str());
            let attrs = props_to_html_string(props);
            r.append(attrs.as_str());
            r.append(">");
            proof {
                assert(decreases_to!(*v => *children));
            }
            let inner = children_to_html_string(children);
            r.append(inner.as_str());
            r.append("</");
            r.append(kind.as_str());
            r.append(">");
            proof {
                assert("<"@ =~= seq!['<']);
                assert(">"@ =~= seq!['>']);
                assert("</"@ =~= seq!['<', '/']);
                let mc = v@.spec_children();
                let cs = Seq::new(
                    children@.len(),
                    |i: int|
                        if 0 <= i < children@.len() {
                            view_m(children@[i])
                        } else {
                            ViewM::Text(Seq::<char>::empty())
                        },
                );
                assert(mc =~= cs);
                assert(children_html(mc) == children_html(cs));
                assert(r@ =~= html_of(v@));
            }
            r
        },
    }
}

} // verus!
