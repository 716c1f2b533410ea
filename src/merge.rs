use vstd::prelude::*;

use crate::json::{
    first_value, has_key, lemma_view_entries_index, lemma_view_entries_push, view_entries, Json, Value,
};

verus! {

/// The entries of an object node; any other node has none.
pub open spec fn entries_of(j: Json) -> Seq<(Seq<char>, Json)> {
    match j {
        Json::Obj(es) => es,
        _ => Seq::empty(),
    }
}

/// A leaf that the feed uses to mean "nothing to report".
pub open spec fn is_blank(j: Json) -> bool {
    j matches Json::Str(s) && s.len() == 0
}

/// Normalisation of an update before it is merged: entries whose value is an
/// empty string are dropped, at every depth of nested objects.
pub open spec fn transform(p: Json) -> Json
    decreases p,
{
    match p {
        Json::Obj(es) => Json::Obj(transform_entries(es)),
        _ => p,
    }
}

pub open spec fn transform_entries(es: Seq<(Seq<char>, Json)>) -> Seq<(Seq<char>, Json)>
    decreases es,
{
    if es.len() == 0 {
        Seq::empty()
    } else {
        let front = transform_entries(es.subrange(0, es.len() - 1));
        let last = es[es.len() - 1];
        if is_blank(last.1) {
            front
        } else {
            front.push((last.0, transform(last.1)))
        }
    }
}

/// Merge of update `p` into document `c`. Objects merge key by key; a `Null`
/// under a key of the update deletes that key; any other update node replaces
/// what was there, with its own deletion markers stripped.
pub open spec fn merge(c: Json, p: Json) -> Json
    decreases p, 0nat,
{
    match p {
        Json::Obj(pe) => Json::Obj(kept(entries_of(c), pe) + added(entries_of(c), pe)),
        _ => p,
    }
}

/// What becomes of an entry of the document with key `k` and value `cv`:
/// `None` when the update deletes it.
pub open spec fn merged_at(cv: Json, k: Seq<char>, pe: Seq<(Seq<char>, Json)>) -> Option<Json>
    decreases pe, 0nat,
{
    if pe.len() == 0 {
        Some(cv)
    } else if pe[0].0 == k {
        if pe[0].1 is Null {
            None
        } else {
            Some(merge(cv, pe[0].1))
        }
    } else {
        merged_at(cv, k, pe.subrange(1, pe.len() as int))
    }
}

/// The document's entries, in their order, after the update has acted on them.
pub open spec fn kept(ce: Seq<(Seq<char>, Json)>, pe: Seq<(Seq<char>, Json)>) -> Seq<
    (Seq<char>, Json),
>
    decreases pe, ce.len(),
{
    if ce.len() == 0 {
        Seq::empty()
    } else {
        let front = kept(ce.subrange(0, ce.len() - 1), pe);
        let last = ce[ce.len() - 1];
        match merged_at(last.1, last.0, pe) {
            Some(v) => front.push((last.0, v)),
            None => front,
        }
    }
}

/// The update's entries under keys that the document lacks, in the update's order.
pub open spec fn added(ce: Seq<(Seq<char>, Json)>, pe: Seq<(Seq<char>, Json)>) -> Seq<
    (Seq<char>, Json),
>
    decreases pe, 0nat,
{
    if pe.len() == 0 {
        Seq::empty()
    } else {
        let front = added(ce, pe.subrange(0, pe.len() - 1));
        let last = pe[pe.len() - 1];
        if !has_key(ce, last.0) && !(last.1 is Null) {
            front.push((last.0, merge(Json::Null, last.1)))
        } else {
            front
        }
    }
}

/// One update applied to a document: normalised, then merged.
pub open spec fn apply(c: Json, p: Json) -> Json {
    merge(c, transform(p))
}

pub proof fn lemma_merged_at_first(cv: Json, k: Seq<char>, pe: Seq<(Seq<char>, Json)>)
    ensures
        merged_at(cv, k, pe) == match first_value(pe, k) {
            None => Some(cv),
            Some(v) => if v is Null {
                None
            } else {
                Some(merge(cv, v))
            },
        },
    decreases pe.len(),
{
    if pe.len() > 0 && pe[0].0 != k {
        lemma_merged_at_first(cv, k, pe.subrange(1, pe.len() as int));
    }
}

/// Index of the first entry with key `k`.
pub fn find_key(es: &Vec<(String, Value)>, k: &String) -> (r: Option<usize>)
    ensures
        match r {
            Some(i) => i < es.len() && es@[i as int].0@ == k@ && first_value(
                view_entries(es@),
                k@,
            ) == Some(es@[i as int].1@),
            None => first_value(view_entries(es@), k@) is None,
        },
{
    proof {
        lemma_view_entries_index(es@);
    }
    let ghost ves = view_entries(es@);
    let mut i: usize = 0;
    assert(ves.subrange(0, ves.len() as int) =~= ves);
    while i < es.len()
        invariant
            i <= es.len(),
            ves == view_entries(es@),
            ves.len() == es.len(),
            forall|j: int| 0 <= j < es.len() ==> #[trigger] ves[j] == (es@[j].0@, es@[j].1@),
            first_value(ves, k@) == first_value(ves.subrange(i as int, ves.len() as int), k@),
        decreases es.len() - i,
    {
        let ghost rest = ves.subrange(i as int, ves.len() as int);
        assert(rest[0] == ves[i as int]);
        if es[i].0 == *k {
            return Some(i);
        }
        assert(rest.subrange(1, rest.len() as int) =~= ves.subrange(i + 1, ves.len() as int));
        i += 1;
    }
    None
}

fn is_null(v: &Value) -> (r: bool)
    ensures
        r == (v@ is Null),
{
    match v {
        Value::Null => true,
        _ => false,
    }
}

fn is_blank_value(v: &Value) -> (r: bool)
    ensures
        r == is_blank(v@),
{
    match v {
        Value::Str(s) => s.as_str().is_empty(),
        _ => false,
    }
}

/// The normalised form of an update.
pub fn transform_value(p: &Value) -> (r: Value)
    ensures
        r@ == transform(p@),
    decreases p@,
{
    match p {
        Value::Object(es) => {
            proof {
                lemma_view_entries_index(es@);
            }
            let ghost ves = view_entries(es@);
            assert(p@ == Json::Obj(ves));
            let mut out: Vec<(String, Value)> = Vec::new();
            let mut i: usize = 0;
            assert(es@.subrange(0, 0) =~= Seq::<(String, Value)>::empty());
            while i < es.len()
                invariant
                    i <= es.len(),
                    p@ == Json::Obj(ves),
                    ves == view_entries(es@),
                    ves.len() == es.len(),
                    forall|j: int|
                        0 <= j < es.len() ==> #[trigger] ves[j] == (es@[j].0@, es@[j].1@),
                    view_entries(out@) == transform_entries(ves.subrange(0, i as int)),
                decreases es.len() - i,
            {
                let ghost pre = ves.subrange(0, i as int);
                assert(ves.subrange(0, i + 1).subrange(0, i as int) =~= pre);
                assert(ves.subrange(0, i + 1)[i as int] == ves[i as int]);
                if !is_blank_value(&es[i].1) {
                    proof {
                        assert(decreases_to!(p@ => p@->Obj_0));
                        assert(decreases_to!(ves => ves[i as int]));
                        assert(decreases_to!(ves[i as int] => ves[i as int].1));
                    }
                    let e = (es[i].0.clone(), transform_value(&es[i].1));
                    proof {
                        lemma_view_entries_push(out@, e);
                    }
                    out.push(e);
                }
                i += 1;
            }
            assert(ves.subrange(0, es.len() as int) =~= ves);
            Value::Object(out)
        },
        _ => p.deep_copy(),
    }
}

fn merged_at_value(cv: &Value, k: &String, pe: &Vec<(String, Value)>) -> (r: Option<Value>)
    ensures
        match r {
            Some(v) => merged_at(cv@, k@, view_entries(pe@)) == Some(v@),
            None => merged_at(cv@, k@, view_entries(pe@)) is None,
        },
    decreases view_entries(pe@), 0nat,
{
    proof {
        lemma_merged_at_first(cv@, k@, view_entries(pe@));
        lemma_view_entries_index(pe@);
    }
    match find_key(pe, k) {
        None => Some(cv.deep_copy()),
        Some(i) => {
            if is_null(&pe[i].1) {
                None
            } else {
                proof {
                    let ves = view_entries(pe@);
                    assert(ves[i as int].1 == pe@[i as int].1@);
                    assert(decreases_to!(ves => ves[i as int]));
                    assert(decreases_to!(ves[i as int] => ves[i as int].1));
                }
                Some(merge_values(cv, &pe[i].1))
            }
        },
    }
}

fn kept_entries(ce: &Vec<(String, Value)>, pe: &Vec<(String, Value)>) -> (r: Vec<(String, Value)>)
    ensures
        view_entries(r@) == kept(view_entries(ce@), view_entries(pe@)),
    decreases view_entries(pe@), 1nat,
{
    proof {
        lemma_view_entries_index(ce@);
    }
    let ghost vce = view_entries(ce@);
    let mut out: Vec<(String, Value)> = Vec::new();
    let mut i: usize = 0;
    assert(vce.subrange(0, 0) =~= Seq::<(Seq<char>, Json)>::empty());
    while i < ce.len()
        invariant
            i <= ce.len(),
            vce == view_entries(ce@),
            vce.len() == ce.len(),
            forall|j: int| 0 <= j < ce.len() ==> #[trigger] vce[j] == (ce@[j].0@, ce@[j].1@),
            view_entries(out@) == kept(vce.subrange(0, i as int), view_entries(pe@)),
        decreases ce.len() - i,
    {
        assert(vce.subrange(0, i + 1).subrange(0, i as int) =~= vce.subrange(0, i as int));
        assert(vce.subrange(0, i + 1)[i as int] == vce[i as int]);
        match merged_at_value(&ce[i].1, &ce[i].0, pe) {
            Some(v) => {
                let e = (ce[i].0.clone(), v);
                proof {
                    lemma_view_entries_push(out@, e);
                }
                out.push(e);
            },
            None => {},
        }
        i += 1;
    }
    assert(vce.subrange(0, ce.len() as int) =~= vce);
    out
}

fn add_entries(ce: &Vec<(String, Value)>, pe: &Vec<(String, Value)>, start: Vec<(String, Value)>) -> (r: Vec<(String, Value)>)
    ensures
        view_entries(r@) == view_entries(start@) + added(view_entries(ce@), view_entries(pe@)),
    decreases view_entries(pe@), 1nat,
{
    proof {
        lemma_view_entries_index(pe@);
    }
    let ghost vpe = view_entries(pe@);
    let ghost vce = view_entries(ce@);
    let mut out = start;
    let mut i: usize = 0;
    assert(vpe.subrange(0, 0) =~= Seq::<(Seq<char>, Json)>::empty());
    assert(view_entries(out@) =~= view_entries(start@) + Seq::<(Seq<char>, Json)>::empty());
    while i < pe.len()
        invariant
            i <= pe.len(),
            vpe == view_entries(pe@),
            vce == view_entries(ce@),
            vpe.len() == pe.len(),
            forall|j: int| 0 <= j < pe.len() ==> #[trigger] vpe[j] == (pe@[j].0@, pe@[j].1@),
            view_entries(out@) == view_entries(start@) + added(vce, vpe.subrange(0, i as int)),
        decreases pe.len() - i,
    {
        let ghost before = view_entries(out@);
        assert(vpe.subrange(0, i + 1).subrange(0, i as int) =~= vpe.subrange(0, i as int));
        assert(vpe.subrange(0, i + 1)[i as int] == vpe[i as int]);
        if find_key(ce, &pe[i].0).is_none() && !is_null(&pe[i].1) {
            let null = Value::Null;
            proof {
                assert(decreases_to!(vpe => vpe[i as int]));
                assert(decreases_to!(vpe[i as int] => vpe[i as int].1));
            }
            let e = (pe[i].0.clone(), merge_values(&null, &pe[i].1));
            proof {
                lemma_view_entries_push(out@, e);
                assert(view_entries(out@).push((e.0@, e.1@)) =~= view_entries(start@) + added(
                    vce,
                    vpe.subrange(0, i as int),
                ).push((e.0@, e.1@)));
            }
            out.push(e);
        }
        i += 1;
    }
    assert(vpe.subrange(0, pe.len() as int) =~= vpe);
    out
}

/// The document that results from merging update `p` into `c`.
pub fn merge_values(c: &Value, p: &Value) -> (r: Value)
    ensures
        r@ == merge(c@, p@),
    decreases p@, 2nat,
{
    match p {
        Value::Object(pe) => {
            let none: Vec<(String, Value)> = Vec::new();
            let ce: &Vec<(String, Value)> = match c {
                Value::Object(ce) => ce,
                _ => &none,
            };
            assert(view_entries(ce@) == entries_of(c@)) by {
                assert(view_entries(none@) =~= Seq::<(Seq<char>, Json)>::empty());
            }
            assert(p@ == Json::Obj(view_entries(pe@)));
            assert(decreases_to!(p@ => p@->Obj_0));
            let k = kept_entries(ce, pe);
            let all = add_entries(ce, pe, k);
            Value::Object(all)
        },
        _ => p.deep_copy(),
    }
}

} // verus!
