//! The value tree and its mathematical model: strings, ordered lists, and
//! insertion-ordered dicts with last-write-wins updates and path folding.

use vstd::prelude::*;

verus! {

/// A list of [`JsefValue`]s.
pub type JsefList = Vec<JsefValue>;

/// The mathematical model of a value tree: strings are character sequences,
/// lists are sequences of models, dicts are sequences of key/model pairs in
/// insertion order.
pub ghost enum SpecValue {
    String(Seq<char>),
    List(Seq<SpecValue>),
    Dict(Seq<(Seq<char>, SpecValue)>),
}

/// The model of a dict: its entries in insertion order.
pub type SpecDict = Seq<(Seq<char>, SpecValue)>;

/// A string-keyed map of [`JsefValue`]s that preserves insertion order.
///
/// Keys are unique as long as the map is only changed through its methods;
/// lookup is by exact character equality, with no normalization.
#[derive(Debug, PartialEq, Eq)]
pub struct JsefDict {
    pub entries: Vec<(String, JsefValue)>,
}

/// A tree of strings, ordered lists and ordered string-keyed maps.
#[derive(Debug, PartialEq, Eq)]
pub enum JsefValue {
    String(String),
    List(JsefList),
    Dict(JsefDict),
}

/// The model of a value tree.
pub open spec fn view_value(v: JsefValue) -> SpecValue
    decreases v, 1int,
{
    match v {
        JsefValue::String(s) => SpecValue::String(s@),
        JsefValue::List(l) => SpecValue::List(view_list(l@)),
        JsefValue::Dict(d) => SpecValue::Dict(view_entries(d.entries@)),
    }
}

/// The models of a list's elements, in order.
pub open spec fn view_list(es: Seq<JsefValue>) -> Seq<SpecValue>
    decreases es, 0int,
{
    if es.len() == 0 {
        Seq::empty()
    } else {
        view_list(es.drop_last()).push(view_value(es.last()))
    }
}

/// The model of a dict's entry vector.
pub open spec fn view_entries(es: Seq<(String, JsefValue)>) -> SpecDict
    decreases es, 0int,
{
    if es.len() == 0 {
        Seq::empty()
    } else {
        view_entries(es.drop_last()).push((es.last().0@, view_value(es.last().1)))
    }
}

/// `view_list` maps the sequence element by element.
pub broadcast proof fn lemma_view_list(es: Seq<JsefValue>)
    ensures
        (#[trigger] view_list(es)).len() == es.len(),
        forall|i: int| 0 <= i < es.len() ==> view_list(es)[i] == view_value(es[i]),
    decreases es.len(),
{
    if es.len() > 0 {
        lemma_view_list(es.drop_last());
    }
}

/// `view_entries` maps the entry vector element by element.
pub broadcast proof fn lemma_view_entries(es: Seq<(String, JsefValue)>)
    ensures
        (#[trigger] view_entries(es)).len() == es.len(),
        forall|i: int| 0 <= i < es.len() ==> view_entries(es)[i] == (
            es[i].0@,
            view_value(es[i].1),
        ),
    decreases es.len(),
{
    if es.len() > 0 {
        lemma_view_entries(es.drop_last());
    }
}

impl View for JsefValue {
    type V = SpecValue;

    open spec fn view(&self) -> SpecValue {
        view_value(*self)
    }
}

impl View for JsefDict {
    type V = SpecDict;

    open spec fn view(&self) -> SpecDict {
        view_entries(self.entries@)
    }
}

/// The index of `key` in `d`, or -1 when the key is absent; the first
/// occurrence counts.
pub open spec fn dict_index_of(d: SpecDict, key: Seq<char>) -> int
    decreases d.len(),
{
    if d.len() == 0 {
        -1
    } else if d[0].0 == key {
        0
    } else {
        let r = dict_index_of(d.drop_first(), key);
        if r < 0 {
            -1
        } else {
            r + 1
        }
    }
}

pub open spec fn dict_has_key(d: SpecDict, key: Seq<char>) -> bool {
    dict_index_of(d, key) >= 0
}

/// The value stored under `key`; meaningful only when the key is present.
pub open spec fn dict_get(d: SpecDict, key: Seq<char>) -> SpecValue
    recommends
        dict_has_key(d, key),
{
    d[dict_index_of(d, key)].1
}

/// Last-write-wins update: an existing key keeps its position and gets the
/// new value, an absent key is appended at the end.
pub open spec fn dict_set(d: SpecDict, key: Seq<char>, v: SpecValue) -> SpecDict {
    let i = dict_index_of(d, key);
    if i < 0 {
        d.push((key, v))
    } else {
        d.update(i, (key, v))
    }
}

/// `dict_index_of` returns a position in range that holds the key, and no
/// earlier position does; -1 means no position holds it.
pub proof fn lemma_dict_index_of(d: SpecDict, key: Seq<char>)
    ensures
        -1 <= dict_index_of(d, key) < d.len(),
        dict_index_of(d, key) >= 0 ==> d[dict_index_of(d, key)].0 == key,
        forall|j: int| 0 <= j < dict_index_of(d, key) ==> d[j].0 != key,
        dict_index_of(d, key) == -1 ==> forall|j: int| 0 <= j < d.len() ==> d[j].0 != key,
    decreases d.len(),
{
    if d.len() > 0 && d[0].0 != key {
        lemma_dict_index_of(d.drop_first(), key);
        assert forall|j: int| 0 <= j < dict_index_of(d, key) implies d[j].0 != key by {
            if j > 0 {
                assert(d[j] == d.drop_first()[j - 1]);
            }
        }
        if dict_index_of(d, key) == -1 {
            assert forall|j: int| 0 <= j < d.len() implies d[j].0 != key by {
                if j > 0 {
                    assert(d[j] == d.drop_first()[j - 1]);
                }
            }
        }
    }
}

/// A position that holds the key, with no earlier position holding it, is
/// exactly what `dict_index_of` returns.
pub proof fn lemma_dict_index_of_at(d: SpecDict, key: Seq<char>, i: int)
    requires
        0 <= i < d.len(),
        d[i].0 == key,
        forall|j: int| 0 <= j < i ==> d[j].0 != key,
    ensures
        dict_index_of(d, key) == i,
    decreases d.len(),
{
    if i > 0 {
        lemma_dict_index_of_at(d.drop_first(), key, i - 1);
    }
}

impl Default for JsefDict {
    /// An empty dict.
    fn default() -> (r: Self)
        ensures
            r@ == Seq::<(Seq<char>, SpecValue)>::empty(),
    {
        let r = JsefDict { entries: Vec::new() };
        proof {
            assert(r@ =~= Seq::<(Seq<char>, SpecValue)>::empty());
        }
        r
    }
}

impl JsefDict {
    pub fn len(&self) -> (r: usize)
        ensures
            r == self@.len(),
    {
        proof {
            lemma_view_entries(self.entries@);
        }
        self.entries.len()
    }

    /// The entry at position `i` in insertion order.
    pub fn get_at(&self, i: usize) -> (r: &(String, JsefValue))
        requires
            i < self@.len(),
        ensures
            r.0@ == self@[i as int].0,
            r.1@ == self@[i as int].1,
    {
        proof {
            lemma_view_entries(self.entries@);
        }
        &self.entries[i]
    }

    /// The position of `key`, scanning from the front.
    pub fn index_of(&self, key: &String) -> (r: Option<usize>)
        ensures
            match r {
                Some(i) => dict_index_of(self@, key@) == i,
                None => dict_index_of(self@, key@) == -1,
            },
    {
        let ghost d = self@;
        proof {
            lemma_view_entries(self.entries@);
        }
        let mut i: usize = 0;
        while i < self.entries.len()
            invariant
                i <= self.entries.len(),
                d == self@,
                self@.len() == self.entries.len(),
                forall|j: int| 0 <= j < i ==> self@[j].0 != key@,
            decreases self.entries.len() - i,
        {
            proof {
                lemma_view_entries(self.entries@);
            }
            if self.entries[i].0 == *key {
                proof {
                    assert(self@[i as int].0 == key@);
                    lemma_dict_index_of_at(d, key@, i as int);
                }
                return Some(i);
            }
            i = i + 1;
        }
        proof {
            lemma_dict_index_of(d, key@);
            if dict_index_of(d, key@) >= 0 {
                assert(d[dict_index_of(d, key@)].0 == key@);
            }
        }
        None
    }

    /// Last-write-wins insert: an existing key keeps its position and gets
    /// the new value, an absent key is appended.
    pub fn insert(&mut self, key: String, value: JsefValue)
        ensures
            final(self)@ == dict_set(old(self)@, key@, view_value(value)),
    {
        let ghost d0 = self@;
        let ghost kv = (key@, view_value(value));
        proof {
            lemma_dict_index_of(d0, key@);
            lemma_view_entries(self.entries@);
        }
        let idx = self.index_of(&key);
        match idx {
            Some(i) => {
                let ghost es0 = self.entries@;
                self.entries.set(i, (key, value));
                proof {
                    lemma_view_entries(es0);
                    lemma_view_entries(self.entries@);
                    assert(self@ =~= dict_set(d0, kv.0, kv.1));
                }
            },
            None => {
                let ghost es0 = self.entries@;
                self.entries.push((key, value));
                proof {
                    lemma_view_entries(es0);
                    lemma_view_entries(self.entries@);
                    assert(self@ =~= dict_set(d0, kv.0, kv.1));
                }
            },
        }
    }

    /// Looks `key` up by exact character equality.
    pub fn get(&self, key: &str) -> (r: Option<&JsefValue>)
        ensures
            match r {
                Some(v) => dict_has_key(self@, key@) && v@ == dict_get(self@, key@),
                None => !dict_has_key(self@, key@),
            },
    {
        let owned = key.to_owned();
        match self.index_of(&owned) {
            Some(i) => {
                proof {
                    lemma_dict_index_of(self@, owned@);
                    lemma_view_entries(self.entries@);
                }
                Some(&self.entries[i].1)
            },
            None => None,
        }
    }
}

/// Every key of the dict occurs exactly once.
pub open spec fn unique_keys(d: SpecDict) -> bool {
    forall|i: int, j: int| 0 <= i < j < d.len() ==> d[i].0 != d[j].0
}

/// A well-formed tree: every dict in it has unique keys.
pub open spec fn wf_value(v: SpecValue) -> bool
    decreases v, 1int,
{
    match v {
        SpecValue::String(_) => true,
        SpecValue::List(l) => wf_list(l),
        SpecValue::Dict(d) => unique_keys(d) && wf_pairs(d),
    }
}

pub open spec fn wf_list(l: Seq<SpecValue>) -> bool
    decreases l, 0int,
{
    if l.len() == 0 {
        true
    } else {
        wf_list(l.drop_last()) && wf_value(l.last())
    }
}

pub open spec fn wf_pairs(d: SpecDict) -> bool
    decreases d, 0int,
{
    if d.len() == 0 {
        true
    } else {
        wf_pairs(d.drop_last()) && wf_value(d.last().1)
    }
}

/// A well-formed list is well-formed element by element.
pub proof fn lemma_wf_list(l: Seq<SpecValue>)
    requires
        wf_list(l),
    ensures
        forall|i: int| 0 <= i < l.len() ==> wf_value(l[i]),
    decreases l.len(),
{
    if l.len() > 0 {
        lemma_wf_list(l.drop_last());
        assert forall|i: int| 0 <= i < l.len() implies wf_value(l[i]) by {
            if i < l.len() - 1 {
                assert(l[i] == l.drop_last()[i]);
            } else {
                assert(l[i] == l.last());
            }
        }
    }
}

/// A well-formed dict is well-formed value by value.
pub proof fn lemma_wf_pairs(d: SpecDict)
    requires
        wf_pairs(d),
    ensures
        forall|i: int| 0 <= i < d.len() ==> wf_value(d[i].1),
    decreases d.len(),
{
    if d.len() > 0 {
        lemma_wf_pairs(d.drop_last());
        assert forall|i: int| 0 <= i < d.len() implies wf_value(d[i].1) by {
            if i < d.len() - 1 {
                assert(d[i] == d.drop_last()[i]);
            } else {
                assert(d[i] == d.last());
            }
        }
    }
}

/// The nesting depth of a tree: the number of list or dict boundaries
/// crossed on the deepest path from its root.
pub open spec fn vdepth(v: SpecValue) -> int
    decreases v, 1int,
{
    match v {
        SpecValue::String(_) => 0,
        SpecValue::List(l) => 1 + vdepth_list(l),
        SpecValue::Dict(d) => 1 + vdepth_pairs(d),
    }
}

pub open spec fn vdepth_list(l: Seq<SpecValue>) -> int
    decreases l, 0int,
{
    if l.len() == 0 {
        0
    } else {
        vstd::math::max(vdepth_list(l.drop_last()), vdepth(l.last()))
    }
}

pub open spec fn vdepth_pairs(d: SpecDict) -> int
    decreases d, 0int,
{
    if d.len() == 0 {
        0
    } else {
        vstd::math::max(vdepth_pairs(d.drop_last()), vdepth(d.last().1))
    }
}

/// Depth is never negative, and bounds every element's depth.
pub proof fn lemma_vdepth_list(l: Seq<SpecValue>)
    ensures
        vdepth_list(l) >= 0,
        forall|i: int| 0 <= i < l.len() ==> vdepth(l[i]) <= vdepth_list(l),
        l.len() > 0 ==> exists|i: int| 0 <= i < l.len() && vdepth(l[i]) == vdepth_list(l),
    decreases l, 0int,
{
    if l.len() > 0 {
        lemma_vdepth_list(l.drop_last());
        lemma_vdepth_nonneg(l.last());
        assert forall|i: int| 0 <= i < l.len() implies vdepth(l[i]) <= vdepth_list(l) by {
            if i < l.len() - 1 {
                assert(l[i] == l.drop_last()[i]);
            } else {
                assert(l[i] == l.last());
            }
        }
        if vdepth(l.last()) == vdepth_list(l) {
            assert(vdepth(l[l.len() - 1]) == vdepth_list(l));
        } else {
            assert(l.len() > 1);
            let w = choose|i: int|
                0 <= i < l.drop_last().len() && vdepth(l.drop_last()[i]) == vdepth_list(
                    l.drop_last(),
                );
            assert(l[w] == l.drop_last()[w]);
            assert(vdepth(l[w]) == vdepth_list(l));
        }
    }
}

pub proof fn lemma_vdepth_pairs(d: SpecDict)
    ensures
        vdepth_pairs(d) >= 0,
        forall|i: int| 0 <= i < d.len() ==> vdepth(d[i].1) <= vdepth_pairs(d),
        d.len() > 0 ==> exists|i: int| 0 <= i < d.len() && vdepth(d[i].1) == vdepth_pairs(d),
    decreases d, 0int,
{
    if d.len() > 0 {
        lemma_vdepth_pairs(d.drop_last());
        lemma_vdepth_nonneg(d.last().1);
        assert forall|i: int| 0 <= i < d.len() implies vdepth(d[i].1) <= vdepth_pairs(d) by {
            if i < d.len() - 1 {
                assert(d[i] == d.drop_last()[i]);
            } else {
                assert(d[i] == d.last());
            }
        }
        if vdepth(d.last().1) == vdepth_pairs(d) {
            assert(vdepth(d[d.len() - 1].1) == vdepth_pairs(d));
        } else {
            assert(d.len() > 1);
            let w = choose|i: int|
                0 <= i < d.drop_last().len() && vdepth(d.drop_last()[i].1) == vdepth_pairs(
                    d.drop_last(),
                );
            assert(d[w] == d.drop_last()[w]);
            assert(vdepth(d[w].1) == vdepth_pairs(d));
        }
    }
}

pub proof fn lemma_vdepth_nonneg(v: SpecValue)
    ensures
        vdepth(v) >= 0,
    decreases v, 1int,
{
    match v {
        SpecValue::String(_) => {},
        SpecValue::List(l) => {
            lemma_vdepth_list(l);
        },
        SpecValue::Dict(d) => {
            lemma_vdepth_pairs(d);
        },
    }
}

/// The models of a path's keys, in order.
pub open spec fn view_keys(path: Seq<String>) -> Seq<Seq<char>> {
    path.map_values(|s: String| s@)
}

/// Path-folded insert, mirroring dotted-key notation: for each key before the
/// last one, descend into the dict stored there, replacing whatever else is
/// stored there (or nothing) with a brand-new empty dict; the last key is
/// inserted into the innermost dict, last write wins.
pub open spec fn dict_set_path(d: SpecDict, path: Seq<Seq<char>>, i: int, v: SpecValue) -> SpecDict
    recommends
        0 <= i < path.len(),
    decreases path.len() - i,
{
    if i + 1 >= path.len() {
        dict_set(d, path[i], v)
    } else {
        let idx = dict_index_of(d, path[i]);
        let sub = if idx >= 0 {
            match d[idx].1 {
                SpecValue::Dict(s) => s,
                _ => Seq::empty(),
            }
        } else {
            Seq::empty()
        };
        let folded = SpecValue::Dict(dict_set_path(sub, path, i + 1, v));
        if idx >= 0 {
            d.update(idx, (path[i], folded))
        } else {
            d.push((path[i], folded))
        }
    }
}

impl JsefDict {
    /// Inserts `value` under the dotted path `path[i..]`, as written in
    /// source text as `k0.k1.....kn = value`: existing dicts along the way
    /// are descended into and merged; anything else along the way is
    /// discarded and replaced by a fresh dict.
    pub fn insert_path(&mut self, path: &Vec<String>, i: usize, value: JsefValue)
        requires
            i < path@.len(),
        ensures
            final(self)@ == dict_set_path(
                old(self)@,
                view_keys(path@),
                i as int,
                view_value(value),
            ),
        decreases path@.len() - i,
    {
        let ghost d0 = self@;
        let ghost keys = view_keys(path@);
        let n = path.len();
        if i == n - 1 {
            self.insert(path[i].clone(), value);
            return;
        }
        proof {
            lemma_dict_index_of(d0, keys[i as int]);
            lemma_view_entries(self.entries@);
        }
        match self.index_of(&path[i]) {
            Some(j) => {
                let ghost es0 = self.entries@;
                let (k, prior) = self.entries.remove(j);
                let mut sub = match prior {
                    JsefValue::Dict(d) => d,
                    _ => JsefDict { entries: Vec::new() },
                };
                sub.insert_path(path, i + 1, value);
                self.entries.insert(j, (k, JsefValue::Dict(sub)));
                proof {
                    lemma_view_entries(es0);
                    lemma_view_entries(self.entries@);
                    assert(self.entries@ =~= es0.update(
                        j as int,
                        (self.entries@[j as int].0, self.entries@[j as int].1),
                    ));
                    assert(self@ =~= dict_set_path(d0, keys, i as int, view_value(value)));
                }
            },
            None => {
                let mut sub = JsefDict { entries: Vec::new() };
                sub.insert_path(path, i + 1, value);
                let ghost es0 = self.entries@;
                self.entries.push((path[i].clone(), JsefValue::Dict(sub)));
                proof {
                    lemma_view_entries(es0);
                    lemma_view_entries(self.entries@);
                    assert(self@ =~= dict_set_path(d0, keys, i as int, view_value(value)));
                }
            },
        }
    }
}

impl JsefValue {
    pub fn new_string() -> (r: Self)
        ensures
            r@ == SpecValue::String(Seq::<char>::empty()),
    {
        JsefValue::String(String::new())
    }

    pub fn new_list() -> (r: Self)
        ensures
            r@ == SpecValue::List(Seq::<SpecValue>::empty()),
    {
        JsefValue::List(Vec::new())
    }

    pub fn new_dict() -> (r: Self)
        ensures
            r@ == SpecValue::Dict(Seq::<(Seq<char>, SpecValue)>::empty()),
    {
        JsefValue::Dict(JsefDict { entries: Vec::new() })
    }

    pub fn string_from(value: &str) -> (r: Self)
        ensures
            r@ == SpecValue::String(value@),
    {
        JsefValue::String(value.to_owned())
    }

    pub fn list_from(value: JsefList) -> (r: Self)
        ensures
            r@ == SpecValue::List(view_list(value@)),
    {
        JsefValue::List(value)
    }

    pub fn dict_from(value: JsefDict) -> (r: Self)
        ensures
            r@ == SpecValue::Dict(value@),
    {
        JsefValue::Dict(value)
    }

    pub fn is_string(&self) -> (r: bool)
        ensures
            r == (self@ is String),
    {
        matches!(self, JsefValue::String(_))
    }

    pub fn as_string(&self) -> (r: Option<&String>)
        ensures
            match r {
                Some(s) => self@ == SpecValue::String(s@),
                None => !(self@ is String),
            },
    {
        match self {
            JsefValue::String(s) => Some(s),
            _ => None,
        }
    }

    pub fn as_string_mut(&mut self) -> (r: Option<&mut String>)
        ensures
            match r {
                Some(s) => (*old(self)) matches JsefValue::String(t) && *s == t && *final(self)
                    == JsefValue::String(*final(s)),
                None => *final(self) == *old(self) && !((*old(self))@ is String),
            },
    {
        match self {
            JsefValue::String(s) => Some(s),
            _ => None,
        }
    }

    pub fn take_string(self) -> (r: Result<String, Self>)
        ensures
            match r {
                Ok(s) => self@ == SpecValue::String(s@),
                Err(v) => v == self && !(self@ is String),
            },
    {
        match self {
            JsefValue::String(s) => Ok(s),
            other => Err(other),
        }
    }

    pub fn is_list(&self) -> (r: bool)
        ensures
            r == (self@ is List),
    {
        matches!(self, JsefValue::List(_))
    }

    pub fn as_list(&self) -> (r: Option<&JsefList>)
        ensures
            match r {
                Some(l) => self@ == SpecValue::List(view_list(l@)),
                None => !(self@ is List),
            },
    {
        match self {
            JsefValue::List(l) => Some(l),
            _ => None,
        }
    }

    pub fn as_list_mut(&mut self) -> (r: Option<&mut JsefList>)
        ensures
            match r {
                Some(l) => (*old(self)) matches JsefValue::List(t) && *l == t && *final(self)
                    == JsefValue::List(*final(l)),
                None => *final(self) == *old(self) && !((*old(self))@ is List),
            },
    {
        match self {
            JsefValue::List(l) => Some(l),
            _ => None,
        }
    }

    pub fn take_list(self) -> (r: Result<JsefList, Self>)
        ensures
            match r {
                Ok(l) => self@ == SpecValue::List(view_list(l@)),
                Err(v) => v == self && !(self@ is List),
            },
    {
        match self {
            JsefValue::List(l) => Ok(l),
            other => Err(other),
        }
    }

    pub fn is_dict(&self) -> (r: bool)
        ensures
            r == (self@ is Dict),
    {
        matches!(self, JsefValue::Dict(_))
    }

    pub fn as_dict(&self) -> (r: Option<&JsefDict>)
        ensures
            match r {
                Some(d) => self@ == SpecValue::Dict(d@),
                None => !(self@ is Dict),
            },
    {
        match self {
            JsefValue::Dict(d) => Some(d),
            _ => None,
        }
    }

    pub fn as_dict_mut(&mut self) -> (r: Option<&mut JsefDict>)
        ensures
            match r {
                Some(d) => (*old(self)) matches JsefValue::Dict(t) && *d == t && *final(self)
                    == JsefValue::Dict(*final(d)),
                None => *final(self) == *old(self) && !((*old(self))@ is Dict),
            },
    {
        match self {
            JsefValue::Dict(d) => Some(d),
            _ => None,
        }
    }

    pub fn take_dict(self) -> (r: Result<JsefDict, Self>)
        ensures
            match r {
                Ok(d) => self@ == SpecValue::Dict(d@),
                Err(v) => v == self && !(self@ is Dict),
            },
    {
        match self {
            JsefValue::Dict(d) => Ok(d),
            other => Err(other),
        }
    }
}

} // verus!
