//! Property values: the JSON-like recursive data carried by view props and
//! applied to nodes, together with an insertion-ordered map of them.

use vstd::prelude::*;

verus! {

broadcast use vstd::std_specs::vec::group_vec_axioms;

/// The mathematical shape of a property value.
#[verifier::ext_equal]
pub ghost enum PropM {
    Null,
    Boolean(bool),
    Number(int),
    Str(Seq<char>),
    Array(Seq<PropM>),
    Object(Seq<(Seq<char>, PropM)>),
}

/// The mathematical shape of an ordered property map: key/value pairs in
/// iteration order, keys unique.
pub type PropsM = Seq<(Seq<char>, PropM)>;

/// A JSON-like property value: null, boolean, integer, string, array or
/// nested object.
pub enum Prop {
    Null,
    Boolean(bool),
    Number(i64),
    Str(String),
    Array(Vec<Prop>),
    Object(Props),
}

/// An ordered map from property names to values. Iteration follows the
/// order in which keys were first set; keys are unique.
pub struct Props {
    pub(crate) entries: Vec<(String, Prop)>,
}

/// The model of a property value.
pub open spec fn prop_m(p: Prop) -> PropM
    decreases p,
    via prop_m_decreases
{
    match p {
        Prop::Null => PropM::Null,
        Prop::Boolean(b) => PropM::Boolean(b),
        Prop::Number(n) => PropM::Number(n as int),
        Prop::Str(s) => PropM::Str(s@),
        Prop::Array(v) => PropM::Array(
            Seq::new(
                v@.len(),
                |i: int|
                    if 0 <= i < v@.len() {
                        prop_m(v@[i])
                    } else {
                        PropM::Null
                    },
            ),
        ),
        Prop::Object(ps) => PropM::Object(props_m(ps)),
    }
}

/// The model of an ordered property map.
pub closed spec fn props_m(ps: Props) -> PropsM
    decreases ps,
    via props_m_decreases
{
    Seq::new(
        ps.entries@.len(),
        |i: int|
            if 0 <= i < ps.entries@.len() {
                (ps.entries@[i].0@, prop_m(ps.entries@[i].1))
            } else {
                (Seq::<char>::empty(), PropM::Null)
            },
    )
}

#[via_fn]
proof fn prop_m_decreases(p: Prop) {
    match p {
        Prop::Array(v) => {
            assert forall|i: int| 0 <= i < v@.len() implies decreases_to!(p => v@[i]) by {
                assert(decreases_to!(p => v));
                assert(decreases_to!(v => v[i]));
            };
        },
        _ => {},
    }
}

#[via_fn]
proof fn props_m_decreases(ps: Props) {
    assert forall|i: int| 0 <= i < ps.entries@.len() implies decreases_to!(
        ps => ps.entries@[i].1,
    ) by {
        assert(decreases_to!(ps => ps.entries));
        assert(decreases_to!(ps.entries => ps.entries[i]));
        assert(decreases_to!(ps.entries@[i] => ps.entries@[i].1));
    }
}

impl View for Prop {
    type V = PropM;

    open spec fn view(&self) -> PropM {
        prop_m(*self)
    }
}

impl View for Props {
    type V = PropsM;

    open spec fn view(&self) -> PropsM {
        props_m(*self)
    }
}

/// Whether the map holds the key `k`.
pub open spec fn props_has_key(m: PropsM, k: Seq<char>) -> bool {
    exists|i: int| 0 <= i < m.len() && m[i].0 == k
}

/// The position of the key `k` in the map.
pub open spec fn props_key_index(m: PropsM, k: Seq<char>) -> int {
    choose|i: int| 0 <= i < m.len() && m[i].0 == k
}

/// The value stored under the key `k`.
pub open spec fn props_value(m: PropsM, k: Seq<char>) -> PropM {
    m[props_key_index(m, k)].1
}

/// The map after setting `k` to `v`: replaced in place when present,
/// appended otherwise.
pub open spec fn props_set(m: PropsM, k: Seq<char>, v: PropM) -> PropsM {
    if props_has_key(m, k) {
        m.update(props_key_index(m, k), (k, v))
    } else {
        m.push((k, v))
    }
}

/// The map after removing `k`; unchanged when absent.
pub open spec fn props_remove(m: PropsM, k: Seq<char>) -> PropsM {
    if props_has_key(m, k) {
        m.remove(props_key_index(m, k))
    } else {
        m
    }
}

/// Keys are pairwise distinct.
pub open spec fn props_wf(m: PropsM) -> bool {
    forall|i: int, j: int| 0 <= i < j < m.len() ==> m[i].0 != m[j].0
}

/// Setting a key keeps the keys pairwise distinct.
pub proof fn lemma_props_set_wf(m: PropsM, k: Seq<char>, v: PropM)
    requires
        props_wf(m),
    ensures
        props_wf(props_set(m, k, v)),
{
    if props_has_key(m, k) {
        let w = props_key_index(m, k);
        assert(0 <= w < m.len() && m[w].0 == k);
        let m2 = m.update(w, (k, v));
        assert forall|i: int, j: int| 0 <= i < j < m2.len() implies m2[i].0 != m2[j].0 by {
            assert(m[i].0 != m[j].0);
        }
    } else {
        let m2 = m.push((k, v));
        assert forall|i: int, j: int| 0 <= i < j < m2.len() implies m2[i].0 != m2[j].0 by {
            if j == m.len() {
                assert(m2[i].0 == m[i].0);
                if m[i].0 == k {
                    assert(props_has_key(m, k));
                }
            } else {
                assert(m[i].0 != m[j].0);
            }
        }
    }
}

/// Removing a key keeps the keys pairwise distinct.
pub proof fn lemma_props_remove_wf(m: PropsM, k: Seq<char>)
    requires
        props_wf(m),
    ensures
        props_wf(props_remove(m, k)),
{
    if props_has_key(m, k) {
        let w = props_key_index(m, k);
        assert(0 <= w < m.len() && m[w].0 == k);
        let m2 = m.remove(w);
        assert forall|i: int, j: int| 0 <= i < j < m2.len() implies m2[i].0 != m2[j].0 by {
            let i0 = if i < w { i } else { i + 1 };
            let j0 = if j < w { j } else { j + 1 };
            assert(m2[i].0 == m[i0].0);
            assert(m2[j].0 == m[j0].0);
            assert(m[i0].0 != m[j0].0);
        }
    }
}

/// How the model of a map lines up with its entries, for the other
/// modules of this crate.
pub(crate) proof fn lemma_props_m(ps: Props)
    ensures
        props_m(ps).len() == ps.entries@.len(),
        forall|i: int|
            0 <= i < ps.entries@.len() ==> props_m(ps)[i] == (
                #[trigger] ps.entries@[i].0@,
                prop_m(ps.entries@[i].1),
            ),
{
}

impl Prop {
    /// Whether this value is `Null`.
    pub fn is_null(&self) -> (r: bool)
        ensures
            r == (self@ is Null),
    {
        match self {
            Prop::Null => true,
            _ => false,
        }
    }

    /// Whether this value is a nested object.
    pub fn is_object(&self) -> (r: bool)
        ensures
            r == (self@ is Object),
    {
        match self {
            Prop::Object(_) => true,
            _ => false,
        }
    }

    /// Whether this value is a string.
    pub fn is_string(&self) -> (r: bool)
        ensures
            r == (self@ is Str),
    {
        match self {
            Prop::Str(_) => true,
            _ => false,
        }
    }

    /// A deep copy of this value.
    #[verifier::loop_isolation(false)]
    pub fn duplicate(&self) -> (r: Prop)
        ensures
            r@ == self@,
        decreases self,
    {
        match self {
            Prop::Null => Prop::Null,
            Prop::Boolean(b) => Prop::Boolean(*b),
            Prop::Number(n) => Prop::Number(*n),
            Prop::Str(s) => Prop::Str(s.clone()),
            Prop::Array(v) => {
                let mut out: Vec<Prop> = Vec::new();
                let mut i: usize = 0;
                while i < v.len()
                    invariant
                        i <= v@.len(),
                        out@.len() == i,
                        forall|j: int| 0 <= j < i ==> out@[j]@ == prop_m(v@[j]),
                    decreases v@.len() - i,
                {
                    proof {
                        assert(decreases_to!(*self => *v));
                        assert(decreases_to!(*v => v@[i as int]));
                    }
                    out.push(v[i].duplicate());
                    i = i + 1;
                }
                let r = Prop::Array(out);
                proof {
                    assert(self@ is Array);
                    assert(out@.len() == v@.len());
                    assert(forall|j: int| 0 <= j < v@.len() ==> prop_m(out@[j]) == prop_m(v@[j]));
                    assert(r@->Array_0 =~= self@->Array_0);
                    assert(r@ =~~= self@);
                }
                r
            },
            Prop::Object(ps) => Prop::Object(ps.duplicate()),
        }
    }
}

impl Props {
    /// Keys are pairwise distinct.
    pub open spec fn wf(self) -> bool {
        props_wf(self@)
    }

    /// An empty map.
    pub fn new() -> (r: Props)
        ensures
            r@ == Seq::<(Seq<char>, PropM)>::empty(),
    {
        let r = Props { entries: Vec::new() };
        proof {
            assert(r@ =~= Seq::<(Seq<char>, PropM)>::empty());
        }
        r
    }

    /// The number of entries.
    pub fn len(&self) -> (r: usize)
        ensures
            r == self@.len(),
    {
        self.entries.len()
    }

    /// The key at position `i`.
    pub fn key_at(&self, i: usize) -> (r: &String)
        requires
            i < self@.len(),
        ensures
            r@ == self@[i as int].0,
    {
        &self.entries[i].0
    }

    /// The value at position `i`.
    pub fn val_at(&self, i: usize) -> (r: &Prop)
        requires
            i < self@.len(),
        ensures
            r@ == self@[i as int].1,
    {
        &self.entries[i].1
    }

    /// Whether the key is present.
    pub fn contains_key(&self, key: &String) -> (r: bool)
        requires
            self.wf(),
        ensures
            r == props_has_key(self@, key@),
    {
        match self.get(key) {
            Some(_) => true,
            None => false,
        }
    }

    /// Looks the key up.
    pub fn get(&self, key: &String) -> (r: Option<&Prop>)
        requires
            self.wf(),
        ensures
            match r {
                Some(p) => props_has_key(self@, key@) && p@ == props_value(self@, key@),
                None => !props_has_key(self@, key@),
            },
    {
        let mut i: usize = 0;
        while i < self.entries.len()
            invariant
                props_wf(self@),
                i <= self@.len(),
                self@.len() == self.entries@.len(),
                forall|j: int| 0 <= j < i ==> self@[j].0 != key@,
                forall|j: int|
                    0 <= j < self@.len() ==> self@[j] == (self.entries@[j].0@, prop_m(
                        self.entries@[j].1,
                    )),
            decreases self@.len() - i,
        {
            if self.entries[i].0 == *key {
                proof {
                    assert(self@[i as int].0 == key@);
                    let w = props_key_index(self@, key@);
                    assert(0 <= w < self@.len() && self@[w].0 == key@);
                    assert(w == i as int);
                }
                return Some(&self.entries[i].1);
            }
            i = i + 1;
        }
        None
    }

    /// Sets `key` to `value`, replacing in place or appending at the end.
    pub fn set(&mut self, key: String, value: Prop)
        requires
            old(self).wf(),
        ensures
            final(self)@ == props_set(old(self)@, key@, value@),
            final(self).wf(),
    {
        let ghost m0 = self@;
        let mut i: usize = 0;
        while i < self.entries.len()
            invariant
                props_wf(self@),
                self@ == m0,
                m0 == old(self)@,
                i <= self@.len(),
                self@.len() == self.entries@.len(),
                forall|j: int| 0 <= j < i ==> self@[j].0 != key@,
                forall|j: int|
                    0 <= j < self@.len() ==> self@[j] == (self.entries@[j].0@, prop_m(
                        self.entries@[j].1,
                    )),
            decreases self@.len() - i,
        {
            if self.entries[i].0 == key {
                let ghost w = props_key_index(m0, key@);
                proof {
                    assert(m0[i as int].0 == key@);
                    assert(props_has_key(m0, key@));
                    assert(0 <= w < m0.len() && m0[w].0 == key@);
                    assert(w == i as int);
                }
                self.entries.remove(i);
                self.entries.insert(i, (key, value));
                proof {
                    assert(self@ =~= m0.update(i as int, (key@, value@)));
                }
                return ;
            }
            i = i + 1;
        }
        self.entries.push((key, value));
        proof {
            assert(self@ =~= m0.push((key@, value@)));
        }
    }

    /// Removes `key`; the map is unchanged when it is absent.
    pub fn remove(&mut self, key: &String)
        requires
            old(self).wf(),
        ensures
            final(self)@ == props_remove(old(self)@, key@),
            final(self).wf(),
    {
        let ghost m0 = self@;
        let mut i: usize = 0;
        while i < self.entries.len()
            invariant
                props_wf(self@),
                self@ == m0,
                m0 == old(self)@,
                i <= self@.len(),
                self@.len() == self.entries@.len(),
                forall|j: int| 0 <= j < i ==> self@[j].0 != key@,
                forall|j: int|
                    0 <= j < self@.len() ==> self@[j] == (self.entries@[j].0@, prop_m(
                        self.entries@[j].1,
                    )),
            decreases self@.len() - i,
        {
            if self.entries[i].0 == *key {
                let ghost w = props_key_index(m0, key@);
                proof {
                    assert(m0[i as int].0 == key@);
                    assert(props_has_key(m0, key@));
                    assert(0 <= w < m0.len() && m0[w].0 == key@);
                    assert(w == i as int);
                }
                self.entries.remove(i);
                proof {
                    assert(self@ =~= m0.remove(i as int));
                }
                return ;
            }
            i = i + 1;
        }
    }

    /// A deep copy of this map.
    #[verifier::loop_isolation(false)]
    pub fn duplicate(&self) -> (r: Props)
        ensures
            r@ == self@,
        decreases self,
    {
        let mut out: Vec<(String, Prop)> = Vec::new();
        let mut i: usize = 0;
        while i < self.entries.len()
            invariant
                i <= self.entries@.len(),
                out@.len() == i,
                forall|j: int|
                    0 <= j < i ==> out@[j].0@ == self.entries@[j].0@ && prop_m(out@[j].1) == prop_m(
                        self.entries@[j].1,
                    ),
            decreases self.entries@.len() - i,
        {
            proof {
                assert(decreases_to!(*self => self.entries));
                assert(decreases_to!(self.entries => self.entries[i as int]));
                assert(decreases_to!(self.entries@[i as int] => self.entries@[i as int].1));
            }
            let k = self.entries[i].0.clone();
            let v = self.entries[i].1.duplicate();
            out.push((k, v));
            i = i + 1;
        }
        let r = Props { entries: out };
        proof {
            assert(r@ =~= self@);
        }
        r
    }
}

} // verus!
