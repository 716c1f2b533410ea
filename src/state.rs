use vstd::prelude::*;

use crate::json::{well_formed, Json, Value};
use crate::merge_lemmas::lemma_apply_idempotent;
use crate::merge::{apply, transform_value, merge_values};

verus! {

/// Why an update was not applied.
#[derive(Clone, Copy, Debug, PartialEq, Eq)]
pub enum UpdateError {
    /// The update's root is not an object, so it names no path of the document.
    NotAnObject,
    /// An object of the update holds the same key twice.
    DuplicateKey,
}

/// One access to the live document: an update from the feed, or a read.
pub enum Access {
    Update(Json),
    Read,
}

/// The effect of one update on the document: updates whose root is not an
/// object, or that repeat a key within an object, are dropped.
pub open spec fn step(doc: Json, u: Json) -> Json {
    if u is Obj && well_formed(u) {
        apply(doc, u)
    } else {
        doc
    }
}

/// The document after a sequence of updates, oldest first.
pub open spec fn apply_all(doc: Json, us: Seq<Json>) -> Json
    decreases us.len(),
{
    if us.len() == 0 {
        doc
    } else {
        step(apply_all(doc, us.subrange(0, us.len() - 1)), us[us.len() - 1])
    }
}

/// The document after a sequence of accesses; a read leaves it as it was.
pub open spec fn run(doc: Json, acc: Seq<Access>) -> Json
    decreases acc.len(),
{
    if acc.len() == 0 {
        doc
    } else {
        let before = run(doc, acc.subrange(0, acc.len() - 1));
        match acc[acc.len() - 1] {
            Access::Update(u) => step(before, u),
            Access::Read => before,
        }
    }
}

/// The updates among a sequence of accesses, in their order.
pub open spec fn updates_of(acc: Seq<Access>) -> Seq<Json>
    decreases acc.len(),
{
    if acc.len() == 0 {
        Seq::empty()
    } else {
        let front = updates_of(acc.subrange(0, acc.len() - 1));
        match acc[acc.len() - 1] {
            Access::Update(u) => front.push(u),
            Access::Read => front,
        }
    }
}

/// However reads are interleaved with a fixed sequence of updates, the
/// document ends the same: it is the updates applied in order.
pub proof fn lemma_reads_do_not_matter(doc: Json, acc: Seq<Access>)
    ensures
        run(doc, acc) == apply_all(doc, updates_of(acc)),
    decreases acc.len(),
{
    if acc.len() > 0 {
        let front = acc.subrange(0, acc.len() - 1);
        lemma_reads_do_not_matter(doc, front);
        let us = updates_of(front);
        match acc[acc.len() - 1] {
            Access::Update(u) => {
                assert(us.push(u).subrange(0, us.len() as int) =~= us);
            },
            Access::Read => {},
        }
    }
}

/// The canonical document of a run. All changes go through `apply_update`.
pub struct LiveState {
    doc: Value,
}

impl LiveState {
    pub closed spec fn document(&self) -> Json {
        self.doc@
    }

    /// A state holding the empty object.
    pub fn new() -> (r: LiveState)
        ensures
            r.document() == Json::Obj(Seq::empty()),
    {
        let es: Vec<(String, Value)> = Vec::new();
        let r = LiveState { doc: Value::Object(es) };
        assert(crate::json::view_entries(es@) =~= Seq::<(Seq<char>, Json)>::empty());
        r
    }

    /// Normalises `update` and merges it into the document. An update whose
    /// root is not an object, or that repeats a key within an object, is
    /// refused and leaves the document unchanged. Applying an accepted update
    /// again would leave the document as it is.
    pub fn apply_update(&mut self, update: &Value) -> (r: Result<(), UpdateError>)
        ensures
            update@ is Obj && well_formed(update@) ==> r is Ok && final(self).document() == apply(
                old(self).document(),
                update@,
            ) && apply(final(self).document(), update@) == final(self).document(),
            !(update@ is Obj) ==> r == Err::<(), UpdateError>(UpdateError::NotAnObject),
            update@ is Obj && !well_formed(update@) ==> r == Err::<(), UpdateError>(
                UpdateError::DuplicateKey,
            ),
            r is Err ==> final(self).document() == old(self).document(),
            final(self).document() == step(old(self).document(), update@),
    {
        match update {
            Value::Object(_) => {
                if !update.has_distinct_keys() {
                    return Err(UpdateError::DuplicateKey);
                }
                let t = transform_value(update);
                let merged = merge_values(&self.doc, &t);
                self.doc = merged;
                proof {
                    lemma_apply_idempotent(old(self).doc@, update@);
                }
                Ok(())
            },
            _ => Err(UpdateError::NotAnObject),
        }
    }

    /// A copy of the document as it stands.
    pub fn read(&self) -> (r: Value)
        ensures
            r@ == self.document(),
    {
        self.doc.deep_copy()
    }
}

} // verus!
