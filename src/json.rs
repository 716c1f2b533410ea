use vstd::prelude::*;

verus! {

/// Mathematical model of a semi-structured document node.
pub enum Json {
    Null,
    Bool(bool),
    Num(Seq<char>),
    Str(Seq<char>),
    Arr(Seq<Json>),
    Obj(Seq<(Seq<char>, Json)>),
}

/// An executable document node. Objects keep their entries in insertion order.
/// Numbers are held as their literal text, so no precision is lost.
#[derive(Debug, PartialEq, Eq)]
pub enum Value {
    Null,
    Bool(bool),
    Number(String),
    Str(String),
    Array(Vec<Value>),
    Object(Vec<(String, Value)>),
}

pub open spec fn view_items(s: Seq<Value>) -> Seq<Json>
    decreases s,
{
    if s.len() == 0 {
        Seq::empty()
    } else {
        view_items(s.subrange(0, s.len() - 1)).push(view_value(s[s.len() - 1]))
    }
}

pub open spec fn view_entries(s: Seq<(String, Value)>) -> Seq<(Seq<char>, Json)>
    decreases s,
{
    if s.len() == 0 {
        Seq::empty()
    } else {
        view_entries(s.subrange(0, s.len() - 1)).push(
            (s[s.len() - 1].0@, view_value(s[s.len() - 1].1)),
        )
    }
}

pub open spec fn view_value(v: Value) -> Json
    decreases v,
{
    match v {
        Value::Null => Json::Null,
        Value::Bool(b) => Json::Bool(b),
        Value::Number(n) => Json::Num(n@),
        Value::Str(s) => Json::Str(s@),
        Value::Array(a) => Json::Arr(view_items(a@)),
        Value::Object(es) => Json::Obj(view_entries(es@)),
    }
}

impl View for Value {
    type V = Json;

    open spec fn view(&self) -> Json {
        view_value(*self)
    }
}

pub proof fn lemma_view_entries_push(s: Seq<(String, Value)>, x: (String, Value))
    ensures
        view_entries(s.push(x)) == view_entries(s).push((x.0@, x.1@)),
{
    assert(s.push(x).subrange(0, s.len() as int) =~= s);
}

pub proof fn lemma_view_items_push(s: Seq<Value>, x: Value)
    ensures
        view_items(s.push(x)) == view_items(s).push(x@),
{
    assert(s.push(x).subrange(0, s.len() as int) =~= s);
}

pub proof fn lemma_view_entries_index(s: Seq<(String, Value)>)
    ensures
        view_entries(s).len() == s.len(),
        forall|i: int|
            0 <= i < s.len() ==> #[trigger] view_entries(s)[i] == (s[i].0@, s[i].1@),
    decreases s.len(),
{
    if s.len() > 0 {
        lemma_view_entries_index(s.subrange(0, s.len() - 1));
    }
}

pub proof fn lemma_view_items_index(s: Seq<Value>)
    ensures
        view_items(s).len() == s.len(),
        forall|i: int| 0 <= i < s.len() ==> #[trigger] view_items(s)[i] == s[i]@,
    decreases s.len(),
{
    if s.len() > 0 {
        lemma_view_items_index(s.subrange(0, s.len() - 1));
    }
}

/// The value stored under key `k` by the first entry that has it.
pub open spec fn first_value(es: Seq<(Seq<char>, Json)>, k: Seq<char>) -> Option<Json>
    decreases es.len(),
{
    if es.len() == 0 {
        None
    } else if es[0].0 == k {
        Some(es[0].1)
    } else {
        first_value(es.subrange(1, es.len() as int), k)
    }
}

pub open spec fn has_key(es: Seq<(Seq<char>, Json)>, k: Seq<char>) -> bool {
    first_value(es, k) is Some
}

/// The child of an object node under key `k`; other nodes have no children.
pub open spec fn child(j: Json, k: Seq<char>) -> Option<Json> {
    match j {
        Json::Obj(es) => first_value(es, k),
        _ => None,
    }
}

/// The node reached by following the keys of `path` from `j`.
pub open spec fn get_path(j: Json, path: Seq<Seq<char>>) -> Option<Json>
    decreases path.len(),
{
    if path.len() == 0 {
        Some(j)
    } else {
        match child(j, path[0]) {
            Some(c) => get_path(c, path.subrange(1, path.len() as int)),
            None => None,
        }
    }
}

pub open spec fn keys_unique(es: Seq<(Seq<char>, Json)>) -> bool {
    forall|i: int, j: int| 0 <= i < j < es.len() ==> es[i].0 != es[j].0
}

/// Every object in the tree has pairwise distinct keys.
pub open spec fn well_formed(j: Json) -> bool
    decreases j,
{
    match j {
        Json::Obj(es) => keys_unique(es) && forall|i: int|
            0 <= i < es.len() ==> well_formed(#[trigger] es[i].1),
        _ => true,
    }
}

pub open spec fn view_path(path: Seq<String>) -> Seq<Seq<char>> {
    path.map_values(|s: String| s@)
}

impl Value {
    /// An independent copy of this node.
    pub fn deep_copy(&self) -> (r: Value)
        ensures
            r@ == self@,
        decreases self@,
    {
        match self {
            Value::Null => Value::Null,
            Value::Bool(b) => Value::Bool(*b),
            Value::Number(n) => Value::Number(n.clone()),
            Value::Str(s) => Value::Str(s.clone()),
            Value::Array(a) => {
                let mut out: Vec<Value> = Vec::new();
                let mut i: usize = 0;
                assert(a@.subrange(0, 0) =~= Seq::<Value>::empty());
                assert(self@ == Json::Arr(view_items(a@)));
                while i < a.len()
                    invariant
                        i <= a.len(),
                        view_items(out@) == view_items(a@.subrange(0, i as int)),
                        self@ == Json::Arr(view_items(a@)),
                    decreases a.len() - i,
                {
                    proof {
                        lemma_view_items_index(a@);
                        let vs = view_items(a@);
                        assert(self@ == Json::Arr(vs));
                        assert(vs[i as int] == a@[i as int]@);
                        assert(decreases_to!(self@ => self@->Arr_0));
                        assert(decreases_to!(vs => vs[i as int]));
                    }
                    let c = a[i].deep_copy();
                    proof {
                        lemma_view_items_push(out@, c);
                        lemma_view_items_push(a@.subrange(0, i as int), a@[i as int]);
                        assert(a@.subrange(0, i as int).push(a@[i as int]) =~= a@.subrange(
                            0,
                            i + 1,
                        ));
                    }
                    out.push(c);
                    i += 1;
                }
                assert(a@.subrange(0, a.len() as int) =~= a@);
                Value::Array(out)
            },
            Value::Object(es) => {
                let mut out: Vec<(String, Value)> = Vec::new();
                let mut i: usize = 0;
                assert(es@.subrange(0, 0) =~= Seq::<(String, Value)>::empty());
                assert(self@ == Json::Obj(view_entries(es@)));
                while i < es.len()
                    invariant
                        i <= es.len(),
                        view_entries(out@) == view_entries(es@.subrange(0, i as int)),
                        self@ == Json::Obj(view_entries(es@)),
                    decreases es.len() - i,
                {
                    proof {
                        lemma_view_entries_index(es@);
                        let vs = view_entries(es@);
                        assert(self@ == Json::Obj(vs));
                        assert(vs[i as int].1 == es@[i as int].1@);
                        assert(decreases_to!(self@ => self@->Obj_0));
                        assert(decreases_to!(vs => vs[i as int]));
                        assert(decreases_to!(vs[i as int] => vs[i as int].1));
                    }
                    let c = (es[i].0.clone(), es[i].1.deep_copy());
                    proof {
                        lemma_view_entries_push(out@, c);
                        lemma_view_entries_push(es@.subrange(0, i as int), es@[i as int]);
                        assert(es@.subrange(0, i as int).push(es@[i as int]) =~= es@.subrange(
                            0,
                            i + 1,
                        ));
                    }
                    out.push(c);
                    i += 1;
                }
                assert(es@.subrange(0, es.len() as int) =~= es@);
                Value::Object(out)
            },
        }
    }

    /// Whether every object in this tree has pairwise distinct keys.
    pub fn has_distinct_keys(&self) -> (r: bool)
        ensures
            r == well_formed(self@),
        decreases self@,
    {
        match self {
            Value::Object(es) => {
                proof {
                    lemma_view_entries_index(es@);
                }
                let ghost vs = view_entries(es@);
                assert(self@ == Json::Obj(vs));
                let mut i: usize = 0;
                while i < es.len()
                    invariant
                        i <= es.len(),
                        self@ == Json::Obj(vs),
                        vs == view_entries(es@),
                        vs.len() == es.len(),
                        forall|j: int| 0 <= j < es.len() ==> #[trigger] vs[j] == (es@[j].0@, es@[j].1@),
                        forall|a: int, b: int| 0 <= a < b < es.len() && a < i ==> vs[a].0 != vs[b].0,
                        forall|a: int| 0 <= a < i ==> well_formed(#[trigger] vs[a].1),
                    decreases es.len() - i,
                {
                    let mut j: usize = i + 1;
                    while j < es.len()
                        invariant
                            i < j <= es.len(),
                            self@ == Json::Obj(vs),
                            vs.len() == es.len(),
                            forall|k: int| 0 <= k < es.len() ==> #[trigger] vs[k] == (es@[k].0@, es@[k].1@),
                            forall|b: int| i < b < j ==> vs[i as int].0 != #[trigger] vs[b].0,
                        decreases es.len() - j,
                    {
                        if es[i].0 == es[j].0 {
                            assert(vs[i as int].0 == vs[j as int].0);
                            assert(!keys_unique(vs));
                            return false;
                        }
                        j += 1;
                    }
                    proof {
                        assert(decreases_to!(self@ => self@->Obj_0));
                        assert(decreases_to!(vs => vs[i as int]));
                        assert(decreases_to!(vs[i as int] => vs[i as int].1));
                    }
                    if !es[i].1.has_distinct_keys() {
                        return false;
                    }
                    i += 1;
                }
                true
            },
            _ => true,
        }
    }

    /// The child of this node under `key`, if it is an object that has one.
    pub fn get_child(&self, key: &String) -> (r: Option<&Value>)
        ensures
            match r {
                Some(c) => child(self@, key@) == Some(c@),
                None => child(self@, key@) is None,
            },
    {
        match self {
            Value::Object(es) => {
                proof {
                    lemma_view_entries_index(es@);
                }
                let ghost ves = view_entries(es@);
                assert(self@ == Json::Obj(ves));
                assert(child(self@, key@) == first_value(ves, key@));
                let mut i: usize = 0;
                assert(ves.subrange(0, ves.len() as int) =~= ves);
                while i < es.len()
                    invariant
                        i <= es.len(),
                        ves == view_entries(es@),
                        child(self@, key@) == first_value(ves, key@),
                        ves.len() == es.len(),
                        forall|j: int| 0 <= j < es.len() ==> #[trigger] ves[j] == (es@[j].0@, es@[j].1@),
                        first_value(ves, key@) == first_value(
                            ves.subrange(i as int, ves.len() as int),
                            key@,
                        ),
                    decreases es.len() - i,
                {
                    let ghost rest = ves.subrange(i as int, ves.len() as int);
                    assert(rest[0] == ves[i as int]);
                    if es[i].0 == *key {
                        assert(ves[i as int] == (es@[i as int].0@, es@[i as int].1@));
                        assert(rest[0].0 == key@);
                        assert(first_value(rest, key@) == Some(rest[0].1));
                        return Some(&es[i].1);
                    }
                    assert(rest.subrange(1, rest.len() as int) =~= ves.subrange(
                        i + 1,
                        ves.len() as int,
                    ));
                    i += 1;
                }
                None
            },
            _ => None,
        }
    }

    /// The node reached by following `path` from this node.
    pub fn get_path(&self, path: &Vec<String>) -> (r: Option<&Value>)
        ensures
            match r {
                Some(c) => get_path(self@, view_path(path@)) == Some(c@),
                None => get_path(self@, view_path(path@)) is None,
            },
    {
        let ghost vp = view_path(path@);
        let mut cur: &Value = self;
        let mut i: usize = 0;
        assert(vp.subrange(0, vp.len() as int) =~= vp);
        while i < path.len()
            invariant
                i <= path.len(),
                vp == view_path(path@),
                vp.len() == path.len(),
                get_path(self@, vp) == get_path(cur@, vp.subrange(i as int, vp.len() as int)),
            decreases path.len() - i,
        {
            let ghost rest = vp.subrange(i as int, vp.len() as int);
            assert(rest[0] == path@[i as int]@);
            assert(rest.subrange(1, rest.len() as int) =~= vp.subrange(i + 1, vp.len() as int));
            match cur.get_child(&path[i]) {
                Some(c) => {
                    cur = c;
                },
                None => {
                    return None;
                },
            }
            i += 1;
        }
        assert(vp.subrange(i as int, vp.len() as int) =~= Seq::<Seq<char>>::empty());
        Some(cur)
    }
}

} // verus!
