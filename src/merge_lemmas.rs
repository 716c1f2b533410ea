use vstd::prelude::*;

use crate::json::{child, first_value, get_path, has_key, keys_unique, well_formed, Json};
use crate::merge::{
    added, apply, entries_of, is_blank, kept, lemma_merged_at_first, merge, merged_at, transform,
    transform_entries,
};

verus! {

pub open spec fn entries_wf(es: Seq<(Seq<char>, Json)>) -> bool {
    keys_unique(es) && forall|i: int| 0 <= i < es.len() ==> well_formed(#[trigger] es[i].1)
}

proof fn lemma_entries_wf_tail(es: Seq<(Seq<char>, Json)>)
    requires
        entries_wf(es),
        es.len() > 0,
    ensures
        entries_wf(es.subrange(1, es.len() as int)),
        entries_wf(es.subrange(0, es.len() - 1)),
{
    let t = es.subrange(1, es.len() as int);
    assert forall|i: int| 0 <= i < t.len() implies well_formed(#[trigger] t[i].1) by {
        assert(t[i] == es[i + 1]);
    }
    let f = es.subrange(0, es.len() - 1);
    assert forall|i: int| 0 <= i < f.len() implies well_formed(#[trigger] f[i].1) by {
        assert(f[i] == es[i]);
    }
}

pub proof fn lemma_first_value_concat(
    a: Seq<(Seq<char>, Json)>,
    b: Seq<(Seq<char>, Json)>,
    k: Seq<char>,
)
    ensures
        first_value(a + b, k) == if has_key(a, k) {
            first_value(a, k)
        } else {
            first_value(b, k)
        },
    decreases a.len(),
{
    if a.len() == 0 {
        assert(a + b =~= b);
    } else if a[0].0 == k {
        assert((a + b)[0] == a[0]);
    } else {
        lemma_first_value_concat(a.subrange(1, a.len() as int), b, k);
        assert((a + b).subrange(1, (a + b).len() as int) =~= a.subrange(1, a.len() as int) + b);
        assert((a + b)[0] == a[0]);
    }
}

/// A one-entry sequence has exactly its own key.
proof fn lemma_first_value_single(x: (Seq<char>, Json), k: Seq<char>)
    ensures
        first_value(seq![x], k) == if x.0 == k {
            Some(x.1)
        } else {
            None
        },
{
    let s = seq![x];
    assert(s[0] == x);
    if x.0 != k {
        assert(s.subrange(1, 1).len() == 0);
        reveal_with_fuel(first_value, 2);
    }
}

proof fn lemma_first_value_push(s: Seq<(Seq<char>, Json)>, x: (Seq<char>, Json), k: Seq<char>)
    ensures
        first_value(s.push(x), k) == if has_key(s, k) {
            first_value(s, k)
        } else if x.0 == k {
            Some(x.1)
        } else {
            None
        },
{
    assert(s.push(x) =~= s + seq![x]);
    lemma_first_value_concat(s, seq![x], k);
    lemma_first_value_single(x, k);
}

/// With distinct keys, the entry at `i` is the one that decides for its key.
proof fn lemma_merged_at_entry(cv: Json, pe: Seq<(Seq<char>, Json)>, i: int)
    requires
        keys_unique(pe),
        0 <= i < pe.len(),
    ensures
        merged_at(cv, pe[i].0, pe) == if pe[i].1 is Null {
            None
        } else {
            Some(merge(cv, pe[i].1))
        },
        first_value(pe, pe[i].0) == Some(pe[i].1),
    decreases i,
{
    if i > 0 {
        let t = pe.subrange(1, pe.len() as int);
        assert(pe[0].0 != pe[i].0);
        assert(t[i - 1] == pe[i]);
        assert(keys_unique(t)) by {
            assert forall|a: int, b: int| 0 <= a < b < t.len() implies t[a].0 != t[b].0 by {
                assert(t[a] == pe[a + 1] && t[b] == pe[b + 1]);
            }
        }
        lemma_merged_at_entry(cv, t, i - 1);
    }
}

proof fn lemma_kept_concat(
    a: Seq<(Seq<char>, Json)>,
    b: Seq<(Seq<char>, Json)>,
    pe: Seq<(Seq<char>, Json)>,
)
    ensures
        kept(a + b, pe) == kept(a, pe) + kept(b, pe),
    decreases b.len(),
{
    if b.len() == 0 {
        assert(a + b =~= a);
        assert(kept(a, pe) + kept(b, pe) =~= kept(a, pe));
    } else {
        let fb = b.subrange(0, b.len() - 1);
        lemma_kept_concat(a, fb, pe);
        assert((a + b).subrange(0, (a + b).len() - 1) =~= a + fb);
        assert((a + b)[(a + b).len() - 1] == b[b.len() - 1]);
        let last = b[b.len() - 1];
        match merged_at(last.1, last.0, pe) {
            Some(v) => {
                assert(kept(a, pe) + kept(fb, pe).push((last.0, v)) =~= (kept(a, pe) + kept(
                    fb,
                    pe,
                )).push((last.0, v)));
            },
            None => {},
        }
    }
}

/// Every entry of the update that is not a deletion leaves its key in the result.
proof fn lemma_added_has(ce: Seq<(Seq<char>, Json)>, pe: Seq<(Seq<char>, Json)>, i: int)
    requires
        0 <= i < pe.len(),
        !has_key(ce, pe[i].0),
        !(pe[i].1 is Null),
    ensures
        has_key(added(ce, pe), pe[i].0),
    decreases pe.len(),
{
    let f = pe.subrange(0, pe.len() - 1);
    let last = pe[pe.len() - 1];
    if i < pe.len() - 1 {
        assert(f[i] == pe[i]);
        lemma_added_has(ce, f, i);
        if !has_key(ce, last.0) && !(last.1 is Null) {
            lemma_first_value_push(added(ce, f), (last.0, merge(Json::Null, last.1)), pe[i].0);
        }
    } else {
        lemma_first_value_push(added(ce, f), (last.0, merge(Json::Null, last.1)), pe[i].0);
    }
}

proof fn lemma_kept_has(ce: Seq<(Seq<char>, Json)>, pe: Seq<(Seq<char>, Json)>, k: Seq<char>)
    requires
        has_key(ce, k),
        forall|cv: Json| #[trigger] merged_at(cv, k, pe) is Some,
    ensures
        has_key(kept(ce, pe), k),
    decreases ce.len(),
{
    let f = ce.subrange(0, ce.len() - 1);
    let last = ce[ce.len() - 1];
    assert(ce =~= f.push(last));
    lemma_first_value_push(f, last, k);
    if has_key(f, k) {
        lemma_kept_has(f, pe, k);
        match merged_at(last.1, last.0, pe) {
            Some(v) => lemma_first_value_push(kept(f, pe), (last.0, v), k),
            None => {},
        }
    } else {
        assert(last.0 == k);
        let v = merged_at(last.1, last.0, pe)->0;
        lemma_first_value_push(kept(f, pe), (last.0, v), k);
    }
}

proof fn lemma_added_none(r: Seq<(Seq<char>, Json)>, pe: Seq<(Seq<char>, Json)>)
    requires
        forall|i: int| 0 <= i < pe.len() && !(pe[i].1 is Null) ==> has_key(r, #[trigger] pe[i].0),
    ensures
        added(r, pe) == Seq::<(Seq<char>, Json)>::empty(),
    decreases pe.len(),
{
    if pe.len() > 0 {
        let f = pe.subrange(0, pe.len() - 1);
        assert forall|i: int| 0 <= i < f.len() && !(f[i].1 is Null) implies has_key(r, #[trigger] f[i].0) by {
            assert(f[i] == pe[i]);
        }
        lemma_added_none(r, f);
    }
}

/// Merging the same update a second time changes nothing.
pub proof fn lemma_merge_idempotent(c: Json, p: Json)
    requires
        well_formed(p),
    ensures
        merge(merge(c, p), p) == merge(c, p),
    decreases p, 0nat,
{
    if let Json::Obj(pe) = p {
        let ce = entries_of(c);
        let k = kept(ce, pe);
        let a = added(ce, pe);
        assert(entries_wf(pe));
        assert(decreases_to!(p => pe));
        lemma_kept_concat(k, a, pe);
        lemma_kept_idem(ce, pe);
        lemma_added_stable(ce, pe, pe.len() as int);
        assert(pe.subrange(0, pe.len() as int) =~= pe);
        assert forall|i: int| 0 <= i < pe.len() && !(pe[i].1 is Null) implies has_key(
            k + a,
            #[trigger] pe[i].0,
        ) by {
            lemma_first_value_concat(k, a, pe[i].0);
            if has_key(ce, pe[i].0) {
                assert forall|cv: Json| #[trigger] merged_at(cv, pe[i].0, pe) is Some by {
                    lemma_merged_at_entry(cv, pe, i);
                }
                lemma_kept_has(ce, pe, pe[i].0);
            } else {
                lemma_added_has(ce, pe, i);
            }
        }
        lemma_added_none(k + a, pe);
        assert(kept(k + a, pe) + added(k + a, pe) =~= k + a);
    }
}

proof fn lemma_merged_at_idem(cv: Json, key: Seq<char>, pe: Seq<(Seq<char>, Json)>)
    requires
        entries_wf(pe),
    ensures
        merged_at(cv, key, pe) matches Some(w) ==> merged_at(w, key, pe) == Some(w),
    decreases pe, 0nat,
{
    if pe.len() > 0 {
        if pe[0].0 == key {
            if !(pe[0].1 is Null) {
                assert(decreases_to!(pe => pe[0]));
                lemma_merge_idempotent(cv, pe[0].1);
            }
        } else {
            lemma_entries_wf_tail(pe);
            let t = pe.subrange(1, pe.len() as int);
            lemma_merged_at_idem(cv, key, t);
        }
    }
}

proof fn lemma_kept_idem(ce: Seq<(Seq<char>, Json)>, pe: Seq<(Seq<char>, Json)>)
    requires
        entries_wf(pe),
    ensures
        kept(kept(ce, pe), pe) == kept(ce, pe),
    decreases pe, ce.len() + 1,
{
    if ce.len() > 0 {
        let f = ce.subrange(0, ce.len() - 1);
        let last = ce[ce.len() - 1];
        lemma_kept_idem(f, pe);
        match merged_at(last.1, last.0, pe) {
            Some(w) => {
                let t = seq![(last.0, w)];
                assert(kept(f, pe).push((last.0, w)) =~= kept(f, pe) + t);
                lemma_kept_concat(kept(f, pe), t, pe);
                lemma_merged_at_idem(last.1, last.0, pe);
                assert(t.subrange(0, 0).len() == 0);
                assert(t[0] == (last.0, w));
                assert(t.subrange(0, 0) =~= Seq::<(Seq<char>, Json)>::empty());
                assert(kept(t.subrange(0, 0), pe) =~= Seq::<(Seq<char>, Json)>::empty());
                assert(kept(t, pe) =~= t);
            },
            None => {},
        }
    }
}

/// The entries that an update adds are left as they are by the same update.
proof fn lemma_added_stable(ce: Seq<(Seq<char>, Json)>, pe: Seq<(Seq<char>, Json)>, m: int)
    requires
        entries_wf(pe),
        0 <= m <= pe.len(),
    ensures
        kept(added(ce, pe.subrange(0, m)), pe) == added(ce, pe.subrange(0, m)),
    decreases pe, m,
{
    if m > 0 {
        let q = pe.subrange(0, m);
        let f = q.subrange(0, m - 1);
        assert(f =~= pe.subrange(0, m - 1));
        lemma_added_stable(ce, pe, m - 1);
        let last = q[m - 1];
        assert(last == pe[m - 1]);
        if !has_key(ce, last.0) && !(last.1 is Null) {
            let w = merge(Json::Null, last.1);
            let t = seq![(last.0, w)];
            assert(added(ce, f).push((last.0, w)) =~= added(ce, f) + t);
            lemma_kept_concat(added(ce, f), t, pe);
            lemma_merged_at_entry(w, pe, m - 1);
            assert(decreases_to!(pe => pe[m - 1]));
            lemma_merge_idempotent(Json::Null, last.1);
            assert(t.subrange(0, 0).len() == 0);
            assert(t[0] == (last.0, w));
            assert(t.subrange(0, 0) =~= Seq::<(Seq<char>, Json)>::empty());
            assert(kept(t.subrange(0, 0), pe) =~= Seq::<(Seq<char>, Json)>::empty());
            assert(kept(t, pe) =~= t);
        }
    } else {
        assert(pe.subrange(0, 0).len() == 0);
    }
}

/// Where `first_value` finds a key, and that it finds none exactly when no entry has it.
pub proof fn lemma_first_value_index(s: Seq<(Seq<char>, Json)>, k: Seq<char>)
    ensures
        first_value(s, k) is None <==> forall|j: int| 0 <= j < s.len() ==> #[trigger] s[j].0 != k,
        first_value(s, k) matches Some(v) ==> exists|j: int|
            0 <= j < s.len() && #[trigger] s[j].0 == k && s[j].1 == v,
    decreases s.len(),
{
    if s.len() > 0 && s[0].0 != k {
        let t = s.subrange(1, s.len() as int);
        lemma_first_value_index(t, k);
        if first_value(s, k) is None {
            assert forall|j: int| 0 <= j < s.len() implies #[trigger] s[j].0 != k by {
                if j > 0 {
                    assert(t[j - 1] == s[j]);
                }
            }
        } else {
            let v = first_value(s, k)->0;
            let j = choose|j: int| 0 <= j < t.len() && #[trigger] t[j].0 == k && t[j].1 == v;
            assert(s[j + 1] == t[j]);
        }
        if forall|j: int| 0 <= j < s.len() ==> #[trigger] s[j].0 != k {
            assert forall|j: int| 0 <= j < t.len() implies #[trigger] t[j].0 != k by {
                assert(t[j] == s[j + 1]);
            }
        }
    } else if s.len() > 0 {
        assert(s[0].0 == k);
    }
}

proof fn lemma_transform_keys(es: Seq<(Seq<char>, Json)>, k: Seq<char>)
    requires
        !has_key(es, k),
    ensures
        !has_key(transform_entries(es), k),
    decreases es.len(),
{
    if es.len() > 0 {
        let f = es.subrange(0, es.len() - 1);
        let last = es[es.len() - 1];
        lemma_first_value_index(es, k);
        lemma_first_value_index(f, k);
        assert forall|j: int| 0 <= j < f.len() implies #[trigger] f[j].0 != k by {
            assert(f[j] == es[j]);
        }
        lemma_transform_keys(f, k);
        if !is_blank(last.1) {
            lemma_first_value_push(transform_entries(f), (last.0, transform(last.1)), k);
        }
    }
}

/// Normalising an update keeps its objects' keys distinct.
pub proof fn lemma_transform_wf(p: Json)
    requires
        well_formed(p),
    ensures
        well_formed(transform(p)),
    decreases p,
{
    if let Json::Obj(es) = p {
        assert(entries_wf(es));
        assert(decreases_to!(p => es));
        lemma_transform_entries_wf(es);
    }
}

proof fn lemma_transform_entries_wf(es: Seq<(Seq<char>, Json)>)
    requires
        entries_wf(es),
    ensures
        entries_wf(transform_entries(es)),
    decreases es,
{
    if es.len() > 0 {
        let f = es.subrange(0, es.len() - 1);
        let last = es[es.len() - 1];
        lemma_entries_wf_tail(es);
        lemma_transform_entries_wf(f);
        if !is_blank(last.1) {
            assert(decreases_to!(es => es[es.len() - 1]));
            lemma_transform_wf(last.1);
            assert forall|j: int| 0 <= j < f.len() implies #[trigger] f[j].0 != last.0 by {
                assert(f[j] == es[j]);
            }
            lemma_first_value_index(f, last.0);
            lemma_transform_keys(f, last.0);
            let tf = transform_entries(f);
            lemma_first_value_index(tf, last.0);
            let r = tf.push((last.0, transform(last.1)));
            assert forall|a: int, b: int| 0 <= a < b < r.len() implies r[a].0 != r[b].0 by {
                if b == r.len() - 1 {
                    assert(r[a] == tf[a]);
                } else {
                    assert(r[a] == tf[a] && r[b] == tf[b]);
                }
            }
            assert forall|i: int| 0 <= i < r.len() implies well_formed(#[trigger] r[i].1) by {
                if i < tf.len() {
                    assert(r[i] == tf[i]);
                }
            }
        }
    }
}

/// Applying the same update twice gives the same document as applying it once.
pub proof fn lemma_apply_idempotent(c: Json, p: Json)
    requires
        well_formed(p),
    ensures
        apply(apply(c, p), p) == apply(c, p),
{
    lemma_transform_wf(p);
    lemma_merge_idempotent(c, transform(p));
}

proof fn lemma_kept_lacks(ce: Seq<(Seq<char>, Json)>, pe: Seq<(Seq<char>, Json)>, k: Seq<char>)
    requires
        forall|cv: Json| #[trigger] merged_at(cv, k, pe) is None,
    ensures
        !has_key(kept(ce, pe), k),
    decreases ce.len(),
{
    if ce.len() > 0 {
        let f = ce.subrange(0, ce.len() - 1);
        let last = ce[ce.len() - 1];
        lemma_kept_lacks(f, pe, k);
        if let Some(v) = merged_at(last.1, last.0, pe) {
            lemma_first_value_push(kept(f, pe), (last.0, v), k);
        }
    }
}

proof fn lemma_added_lacks(ce: Seq<(Seq<char>, Json)>, pe: Seq<(Seq<char>, Json)>, k: Seq<char>)
    requires
        forall|i: int| 0 <= i < pe.len() && #[trigger] pe[i].0 == k ==> pe[i].1 is Null,
    ensures
        !has_key(added(ce, pe), k),
    decreases pe.len(),
{
    if pe.len() > 0 {
        let f = pe.subrange(0, pe.len() - 1);
        let last = pe[pe.len() - 1];
        assert forall|i: int| 0 <= i < f.len() && #[trigger] f[i].0 == k implies f[i].1 is Null by {
            assert(f[i] == pe[i]);
        }
        lemma_added_lacks(ce, f, k);
        if !has_key(ce, last.0) && !(last.1 is Null) {
            lemma_first_value_push(added(ce, f), (last.0, merge(Json::Null, last.1)), k);
        }
    }
}

proof fn lemma_kept_first(
    ce: Seq<(Seq<char>, Json)>,
    pe: Seq<(Seq<char>, Json)>,
    k: Seq<char>,
    v: Json,
)
    requires
        forall|cv: Json| #[trigger] merged_at(cv, k, pe) == Some(merge(cv, v)),
    ensures
        first_value(kept(ce, pe), k) == match first_value(ce, k) {
            Some(cv) => Some(merge(cv, v)),
            None => None::<Json>,
        },
    decreases ce.len(),
{
    if ce.len() > 0 {
        let f = ce.subrange(0, ce.len() - 1);
        let last = ce[ce.len() - 1];
        assert(ce =~= f.push(last));
        lemma_kept_first(f, pe, k, v);
        lemma_first_value_push(f, last, k);
        if let Some(w) = merged_at(last.1, last.0, pe) {
            lemma_first_value_push(kept(f, pe), (last.0, w), k);
        }
    }
}

proof fn lemma_added_first(ce: Seq<(Seq<char>, Json)>, pe: Seq<(Seq<char>, Json)>, i: int)
    requires
        keys_unique(pe),
        0 <= i < pe.len(),
        !has_key(ce, pe[i].0),
        !(pe[i].1 is Null),
    ensures
        first_value(added(ce, pe), pe[i].0) == Some(merge(Json::Null, pe[i].1)),
    decreases pe.len(),
{
    let f = pe.subrange(0, pe.len() - 1);
    let last = pe[pe.len() - 1];
    let k = pe[i].0;
    if i < pe.len() - 1 {
        assert(f[i] == pe[i]);
        assert(keys_unique(f)) by {
            assert forall|a: int, b: int| 0 <= a < b < f.len() implies f[a].0 != f[b].0 by {
                assert(f[a] == pe[a] && f[b] == pe[b]);
            }
        }
        lemma_added_first(ce, f, i);
        if !has_key(ce, last.0) && !(last.1 is Null) {
            lemma_first_value_push(added(ce, f), (last.0, merge(Json::Null, last.1)), k);
        }
    } else {
        assert forall|j: int| 0 <= j < f.len() && #[trigger] f[j].0 == k implies f[j].1 is Null by {
            assert(f[j] == pe[j]);
        }
        lemma_added_lacks(ce, f, k);
        lemma_first_value_push(added(ce, f), (last.0, merge(Json::Null, last.1)), k);
    }
}

pub open spec fn child_or_null(j: Json, k: Seq<char>) -> Json {
    match child(j, k) {
        Some(c) => c,
        None => Json::Null,
    }
}

/// What a merge leaves under a key that the update names.
proof fn lemma_merge_child(c: Json, pe: Seq<(Seq<char>, Json)>, i: int)
    requires
        keys_unique(pe),
        0 <= i < pe.len(),
    ensures
        child(merge(c, Json::Obj(pe)), pe[i].0) == if pe[i].1 is Null {
            None
        } else {
            Some(merge(child_or_null(c, pe[i].0), pe[i].1))
        },
{
    let k = pe[i].0;
    let v = pe[i].1;
    let ce = entries_of(c);
    let kk = kept(ce, pe);
    let aa = added(ce, pe);
    assert(child(merge(c, Json::Obj(pe)), k) == first_value(kk + aa, k));
    lemma_first_value_concat(kk, aa, k);
    assert(child(c, k) == first_value(ce, k)) by {
        if !(c is Obj) {
            assert(ce.len() == 0);
        }
    }
    if v is Null {
        assert forall|cv: Json| #[trigger] merged_at(cv, k, pe) is None by {
            lemma_merged_at_entry(cv, pe, i);
        }
        lemma_kept_lacks(ce, pe, k);
        assert forall|j: int| 0 <= j < pe.len() && #[trigger] pe[j].0 == k implies pe[j].1 is Null by {
            if j != i {
                assert(pe[j].0 != pe[i].0);
            }
        }
        lemma_added_lacks(ce, pe, k);
    } else {
        assert forall|cv: Json| #[trigger] merged_at(cv, k, pe) == Some(merge(cv, v)) by {
            lemma_merged_at_entry(cv, pe, i);
        }
        lemma_kept_first(ce, pe, k, v);
        if !has_key(ce, k) {
            lemma_added_first(ce, pe, i);
        }
    }
}

proof fn lemma_merge_deletes(c: Json, p: Json, path: Seq<Seq<char>>)
    requires
        well_formed(p),
        path.len() > 0,
        get_path(p, path) == Some(Json::Null),
    ensures
        get_path(merge(c, p), path) is None,
    decreases path.len(),
{
    let k = path[0];
    let rest = path.subrange(1, path.len() as int);
    let pe = p->Obj_0;
    let v = first_value(pe, k)->0;
    lemma_first_value_index(pe, k);
    let i = choose|j: int| 0 <= j < pe.len() && #[trigger] pe[j].0 == k && pe[j].1 == v;
    assert(entries_wf(pe));
    lemma_merge_child(c, pe, i);
    if rest.len() > 0 {
        if v is Null {
            assert(child(v, rest[0]) is None);
        }
        lemma_merge_deletes(child_or_null(c, k), v, rest);
    }
}

proof fn lemma_transform_first(es: Seq<(Seq<char>, Json)>, k: Seq<char>)
    requires
        keys_unique(es),
    ensures
        first_value(es, k) is Some && !is_blank(first_value(es, k)->0) ==> first_value(
            transform_entries(es),
            k,
        ) == Some(transform(first_value(es, k)->0)),
    decreases es.len(),
{
    if es.len() > 0 {
        let f = es.subrange(0, es.len() - 1);
        let last = es[es.len() - 1];
        assert(es =~= f.push(last));
        assert(keys_unique(f)) by {
            assert forall|a: int, b: int| 0 <= a < b < f.len() implies f[a].0 != f[b].0 by {
                assert(f[a] == es[a] && f[b] == es[b]);
            }
        }
        lemma_transform_first(f, k);
        lemma_first_value_push(f, last, k);
        if !has_key(f, k) {
            lemma_transform_keys(f, k);
        } else {
            lemma_first_value_index(f, k);
            let v = first_value(f, k)->0;
            let j = choose|j: int| 0 <= j < f.len() && #[trigger] f[j].0 == k && f[j].1 == v;
            assert(f[j] == es[j]);
        }
        if !is_blank(last.1) {
            lemma_first_value_push(transform_entries(f), (last.0, transform(last.1)), k);
        }
    }
}

proof fn lemma_transform_keeps_marker(p: Json, path: Seq<Seq<char>>)
    requires
        well_formed(p),
        get_path(p, path) == Some(Json::Null),
    ensures
        get_path(transform(p), path) == Some(Json::Null),
    decreases path.len(),
{
    if path.len() > 0 {
        let k = path[0];
        let rest = path.subrange(1, path.len() as int);
        let es = p->Obj_0;
        let v = first_value(es, k)->0;
        lemma_first_value_index(es, k);
        let i = choose|j: int| 0 <= j < es.len() && #[trigger] es[j].0 == k && es[j].1 == v;
        assert(well_formed(es[i].1));
        if rest.len() > 0 && v is Null {
            assert(child(v, rest[0]) is None);
        }
        lemma_transform_first(es, k);
        lemma_transform_keeps_marker(v, rest);
    }
}

/// An update holding `Null` at a path removes that path from the document,
/// whatever the document held there before.
pub proof fn lemma_apply_deletes(c: Json, p: Json, path: Seq<Seq<char>>)
    requires
        well_formed(p),
        path.len() > 0,
        get_path(p, path) == Some(Json::Null),
    ensures
        get_path(apply(c, p), path) is None,
{
    lemma_transform_keeps_marker(p, path);
    lemma_transform_wf(p);
    lemma_merge_deletes(c, transform(p), path);
}

/// `path` leads somewhere the update does not write: along it the update holds
/// only objects, and stops before the path's end.
pub open spec fn misses(p: Json, path: Seq<Seq<char>>) -> bool
    decreases path.len(),
{
    path.len() > 0 && p is Obj && match child(p, path[0]) {
        None => true,
        Some(v) => misses(v, path.subrange(1, path.len() as int)),
    }
}

proof fn lemma_kept_untouched(ce: Seq<(Seq<char>, Json)>, pe: Seq<(Seq<char>, Json)>, k: Seq<char>)
    requires
        !has_key(pe, k),
    ensures
        first_value(kept(ce, pe), k) == first_value(ce, k),
    decreases ce.len(),
{
    if ce.len() > 0 {
        let f = ce.subrange(0, ce.len() - 1);
        let last = ce[ce.len() - 1];
        assert(ce =~= f.push(last));
        lemma_kept_untouched(f, pe, k);
        lemma_first_value_push(f, last, k);
        lemma_merged_at_first(last.1, last.0, pe);
        if let Some(w) = merged_at(last.1, last.0, pe) {
            lemma_first_value_push(kept(f, pe), (last.0, w), k);
        }
    }
}

proof fn lemma_merge_misses(c: Json, p: Json, path: Seq<Seq<char>>)
    requires
        well_formed(p),
        misses(p, path),
    ensures
        get_path(merge(c, p), path) == get_path(c, path),
    decreases path.len(),
{
    let k = path[0];
    let rest = path.subrange(1, path.len() as int);
    let pe = p->Obj_0;
    let ce = entries_of(c);
    assert(child(c, k) == first_value(ce, k)) by {
        if !(c is Obj) {
            assert(ce.len() == 0);
        }
    }
    match first_value(pe, k) {
        None => {
            lemma_merge_child_untouched(c, pe, k);
        },
        Some(v) => {
            lemma_first_value_index(pe, k);
            let i = choose|j: int| 0 <= j < pe.len() && #[trigger] pe[j].0 == k && pe[j].1 == v;
            assert(entries_wf(pe));
            assert(misses(v, rest));
            assert(rest.len() > 0 && v is Obj);
            lemma_merge_child(c, pe, i);
            lemma_merge_misses(child_or_null(c, k), v, rest);
            assert(get_path(merge(c, p), path) == get_path(merge(child_or_null(c, k), v), rest));
            if child(c, k) is None {
                assert(child(Json::Null, rest[0]) is None);
                assert(get_path(Json::Null, rest) is None);
            }
        },
    }
}

proof fn lemma_transform_misses(p: Json, path: Seq<Seq<char>>)
    requires
        well_formed(p),
        misses(p, path),
    ensures
        misses(transform(p), path),
    decreases path.len(),
{
    let k = path[0];
    let rest = path.subrange(1, path.len() as int);
    let es = p->Obj_0;
    lemma_transform_first(es, k);
    if first_value(es, k) is None {
        lemma_transform_keys(es, k);
    } else {
        let v = first_value(es, k)->0;
        lemma_first_value_index(es, k);
        let i = choose|j: int| 0 <= j < es.len() && #[trigger] es[j].0 == k && es[j].1 == v;
        assert(well_formed(es[i].1));
        lemma_transform_misses(v, rest);
    }
}

/// An update leaves unchanged every path that it does not reach: updates for
/// different entities do not disturb one another.
pub proof fn lemma_apply_leaves_other_paths(c: Json, p: Json, path: Seq<Seq<char>>)
    requires
        well_formed(p),
        misses(p, path),
    ensures
        get_path(apply(c, p), path) == get_path(c, path),
{
    lemma_transform_wf(p);
    lemma_transform_misses(p, path);
    lemma_merge_misses(c, transform(p), path);
}

proof fn lemma_merge_child_untouched(c: Json, pe: Seq<(Seq<char>, Json)>, k: Seq<char>)
    requires
        first_value(pe, k) is None,
    ensures
        child(merge(c, Json::Obj(pe)), k) == child(c, k),
{
    let ce = entries_of(c);
    assert(child(c, k) == first_value(ce, k)) by {
        if !(c is Obj) {
            assert(ce.len() == 0);
        }
    }
    lemma_kept_untouched(ce, pe, k);
    lemma_first_value_index(pe, k);
    lemma_added_lacks(ce, pe, k);
    lemma_first_value_concat(kept(ce, pe), added(ce, pe), k);
}

/// `d1` and `d2` hold the same thing at the end of `path`, and agree on the
/// nodes along it as far as any merge can tell.
pub open spec fn same_along(d1: Json, d2: Json, path: Seq<Seq<char>>) -> bool
    decreases path.len(),
{
    if path.len() == 0 {
        d1 == d2
    } else if path.len() == 1 {
        child(d1, path[0]) == child(d2, path[0])
    } else {
        same_along(
            child_or_null(d1, path[0]),
            child_or_null(d2, path[0]),
            path.subrange(1, path.len() as int),
        )
    }
}

proof fn lemma_same_along_refl(d: Json, path: Seq<Seq<char>>)
    ensures
        same_along(d, d, path),
    decreases path.len(),
{
    if path.len() > 1 {
        lemma_same_along_refl(child_or_null(d, path[0]), path.subrange(1, path.len() as int));
    }
}

proof fn lemma_same_along_get(d1: Json, d2: Json, path: Seq<Seq<char>>)
    requires
        same_along(d1, d2, path),
    ensures
        get_path(d1, path) == get_path(d2, path),
    decreases path.len(),
{
    if path.len() > 0 {
        let rest = path.subrange(1, path.len() as int);
        if path.len() == 1 {
            assert(rest.len() == 0);
        } else {
            assert(child(Json::Null, rest[0]) is None);
            lemma_same_along_get(child_or_null(d1, path[0]), child_or_null(d2, path[0]), rest);
        }
    }
}

proof fn lemma_merge_same_along(d1: Json, d2: Json, p: Json, path: Seq<Seq<char>>)
    requires
        well_formed(p),
        same_along(d1, d2, path),
    ensures
        same_along(merge(d1, p), merge(d2, p), path),
    decreases path.len(),
{
    if path.len() == 0 || !(p is Obj) {
        lemma_same_along_refl(merge(d1, p), path);
    } else {
        let k = path[0];
        let rest = path.subrange(1, path.len() as int);
        let pe = p->Obj_0;
        assert(entries_wf(pe));
        match first_value(pe, k) {
            None => {
                lemma_merge_child_untouched(d1, pe, k);
                lemma_merge_child_untouched(d2, pe, k);
            },
            Some(v) => {
                lemma_first_value_index(pe, k);
                let i = choose|j: int| 0 <= j < pe.len() && #[trigger] pe[j].0 == k && pe[j].1 == v;
                lemma_merge_child(d1, pe, i);
                lemma_merge_child(d2, pe, i);
                if path.len() > 1 {
                    if v is Null {
                        lemma_same_along_refl(Json::Null, rest);
                    } else {
                        lemma_merge_same_along(child_or_null(d1, k), child_or_null(d2, k), v, rest);
                    }
                }
            },
        }
    }
}

proof fn lemma_misses_same_along(c: Json, p: Json, path: Seq<Seq<char>>)
    requires
        well_formed(p),
        misses(p, path),
    ensures
        same_along(merge(c, p), c, path),
    decreases path.len(),
{
    let k = path[0];
    let rest = path.subrange(1, path.len() as int);
    let pe = p->Obj_0;
    assert(entries_wf(pe));
    match first_value(pe, k) {
        None => {
            lemma_merge_child_untouched(c, pe, k);
            lemma_same_along_refl(c, path);
        },
        Some(v) => {
            lemma_first_value_index(pe, k);
            let i = choose|j: int| 0 <= j < pe.len() && #[trigger] pe[j].0 == k && pe[j].1 == v;
            assert(misses(v, rest));
            assert(rest.len() > 0 && v is Obj);
            lemma_merge_child(c, pe, i);
            lemma_misses_same_along(child_or_null(c, k), v, rest);
        },
    }
}

/// An update that does not reach `path` makes no difference there to a later
/// update either: in whichever order it comes with `q`, the document at
/// `path` is what `q` alone makes of it.
pub proof fn lemma_other_update_either_order(c: Json, p: Json, q: Json, path: Seq<Seq<char>>)
    requires
        well_formed(p),
        well_formed(q),
        misses(p, path),
    ensures
        get_path(apply(apply(c, p), q), path) == get_path(apply(c, q), path),
        get_path(apply(apply(c, q), p), path) == get_path(apply(c, q), path),
{
    lemma_transform_wf(p);
    lemma_transform_wf(q);
    lemma_transform_misses(p, path);
    lemma_misses_same_along(c, transform(p), path);
    lemma_merge_same_along(apply(c, p), c, transform(q), path);
    lemma_same_along_get(apply(apply(c, p), q), apply(c, q), path);
    lemma_apply_leaves_other_paths(apply(c, q), p, path);
}

proof fn lemma_merge_sets(c: Json, p: Json, path: Seq<Seq<char>>, v: Json)
    requires
        well_formed(p),
        path.len() > 0,
        get_path(p, path) == Some(v),
        !(v is Null),
        !(v is Obj),
    ensures
        get_path(merge(c, p), path) == Some(v),
    decreases path.len(),
{
    let k = path[0];
    let rest = path.subrange(1, path.len() as int);
    let pe = p->Obj_0;
    let w = first_value(pe, k)->0;
    lemma_first_value_index(pe, k);
    let i = choose|j: int| 0 <= j < pe.len() && #[trigger] pe[j].0 == k && pe[j].1 == w;
    assert(entries_wf(pe));
    lemma_merge_child(c, pe, i);
    if rest.len() > 0 {
        if w is Null {
            assert(child(w, rest[0]) is None);
        }
        lemma_merge_sets(child_or_null(c, k), w, rest, v);
    }
}

proof fn lemma_transform_keeps_leaf(p: Json, path: Seq<Seq<char>>, v: Json)
    requires
        well_formed(p),
        get_path(p, path) == Some(v),
        !is_blank(v),
        !(v is Obj),
    ensures
        get_path(transform(p), path) == Some(v),
    decreases path.len(),
{
    if path.len() > 0 {
        let k = path[0];
        let rest = path.subrange(1, path.len() as int);
        let es = p->Obj_0;
        let w = first_value(es, k)->0;
        lemma_first_value_index(es, k);
        let i = choose|j: int| 0 <= j < es.len() && #[trigger] es[j].0 == k && es[j].1 == w;
        assert(well_formed(es[i].1));
        if rest.len() > 0 && !(w is Obj) {
            assert(child(w, rest[0]) is None);
        }
        lemma_transform_first(es, k);
        lemma_transform_keeps_leaf(w, rest, v);
    }
}

/// A value other than an object, `Null` or the empty string that an update
/// holds at a path is what the document holds there afterwards.
pub proof fn lemma_apply_sets(c: Json, p: Json, path: Seq<Seq<char>>, v: Json)
    requires
        well_formed(p),
        path.len() > 0,
        get_path(p, path) == Some(v),
        !(v is Null),
        !(v is Obj),
        !is_blank(v),
    ensures
        get_path(apply(c, p), path) == Some(v),
{
    lemma_transform_keeps_leaf(p, path, v);
    lemma_transform_wf(p);
    lemma_merge_sets(c, transform(p), path, v);
}

} // verus!
