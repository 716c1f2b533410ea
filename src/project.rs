use vstd::prelude::*;
use vstd::string::{StrSliceExecFns, StringExecFns};

use crate::json::{get_path, view_path, Json, Value};
use crate::query::{SnapshotLog, SERIES_LIMIT};
use crate::render::{render, render_into};

verus! {

/// The text that a value stands for in a series: a string is its own text,
/// any other value its JSON text; `Null` has none.
pub open spec fn leaf_text(j: Json) -> Option<Seq<char>> {
    match j {
        Json::Null => None,
        Json::Str(s) => Some(s),
        _ => Some(render(j)),
    }
}

/// The non-empty text found at `path` in `doc`, if any.
pub open spec fn field_text(doc: Json, path: Seq<Seq<char>>) -> Option<Seq<char>> {
    match get_path(doc, path) {
        Some(v) => match leaf_text(v) {
            Some(t) => if t.len() > 0 {
                Some(t)
            } else {
                None
            },
            None => None,
        },
        None => None,
    }
}

/// Every text found at `path` across `docs` (oldest first), newest first.
pub open spec fn newest_texts(docs: Seq<Json>, path: Seq<Seq<char>>) -> Seq<Seq<char>>
    decreases docs.len(),
{
    if docs.len() == 0 {
        Seq::empty()
    } else {
        let rest = newest_texts(docs.subrange(0, docs.len() - 1), path);
        match field_text(docs.last(), path) {
            Some(t) => seq![t] + rest,
            None => rest,
        }
    }
}

/// The most recent texts at `path`, newest first, at most `SERIES_LIMIT` of them.
pub open spec fn series(docs: Seq<Json>, path: Seq<Seq<char>>) -> Seq<Seq<char>> {
    let all = newest_texts(docs, path);
    if all.len() <= SERIES_LIMIT {
        all
    } else {
        all.subrange(0, SERIES_LIMIT as int)
    }
}

/// A series holds at most `SERIES_LIMIT` texts, and they are the newest ones
/// found, newest first.
pub proof fn lemma_series_bound(docs: Seq<Json>, path: Seq<Seq<char>>)
    ensures
        series(docs, path).len() <= SERIES_LIMIT,
        series(docs, path) == newest_texts(docs, path).subrange(
            0,
            series(docs, path).len() as int,
        ),
        newest_texts(docs, path).len() > SERIES_LIMIT ==> series(docs, path).len() == SERIES_LIMIT,
{
    let all = newest_texts(docs, path);
    if all.len() <= SERIES_LIMIT {
        assert(all.subrange(0, all.len() as int) =~= all);
    }
}

/// A snapshot appended after all others: its text at `path`, if any, becomes
/// the newest entry of the series, and the oldest entry past the limit drops
/// out; a snapshot with no text there (the path absent, deleted or empty)
/// leaves the series as it was.
pub proof fn lemma_series_append(docs: Seq<Json>, d: Json, path: Seq<Seq<char>>)
    ensures
        field_text(d, path) is None ==> series(docs.push(d), path) == series(docs, path),
        field_text(d, path) is Some ==> series(docs.push(d), path) == {
            let all = seq![field_text(d, path)->0] + series(docs, path);
            if all.len() <= SERIES_LIMIT {
                all
            } else {
                all.subrange(0, SERIES_LIMIT as int)
            }
        },
{
    let ds = docs.push(d);
    assert(ds.subrange(0, ds.len() - 1) =~= docs);
    assert(ds.last() == d);
    if field_text(d, path) is Some {
        let t = field_text(d, path)->0;
        let n = newest_texts(docs, path);
        let all = seq![t] + series(docs, path);
        if n.len() > SERIES_LIMIT {
            assert((seq![t] + n).subrange(0, SERIES_LIMIT as int) =~= (seq![t] + n.subrange(
                0,
                SERIES_LIMIT as int,
            )).subrange(0, SERIES_LIMIT as int));
        }
    }
}

pub open spec fn docs_of(log: SnapshotLog) -> Seq<Json> {
    log.view_seq().map_values(|x: (Json, i64)| x.0)
}

pub open spec fn texts(v: Seq<String>) -> Seq<Seq<char>> {
    v.map_values(|s: String| s@)
}

pub open spec fn digit_char(d: int) -> char {
    "0123456789"@[d]
}

pub open spec fn nat_digits(n: nat) -> Seq<char>
    decreases n,
{
    if n < 10 {
        seq![digit_char(n as int)]
    } else {
        nat_digits(n / 10).push(digit_char((n % 10) as int))
    }
}

/// Base-ten text of an integer, with a leading '-' when it is negative.
pub open spec fn decimal_text(n: int) -> Seq<char> {
    if n < 0 {
        "-"@ + nat_digits((-n) as nat)
    } else {
        nat_digits(n as nat)
    }
}

fn append_digits(out: &mut String, n: u64)
    ensures
        final(out)@ == old(out)@ + nat_digits(n as nat),
    decreases n,
{
    if n >= 10 {
        append_digits(out, n / 10);
    }
    let d = (n % 10) as usize;
    proof {
        reveal_strlit("0123456789");
    }
    let ghost before = out@;
    out.append("0123456789".substring_char(d, d + 1));
    assert("0123456789"@.subrange(d as int, d + 1) =~= seq![digit_char(d as int)]);
    assert(out@ =~= old(out)@ + nat_digits(n as nat));
}

/// The base-ten text of `id`, led by '-' when it is negative.
fn id_text(id: i64) -> (r: String)
    ensures
        r@ == decimal_text(id as int),
{
    let mut out = String::new();
    if id < 0 {
        out.append("-");
        let magnitude = (0i128 - id as i128) as u64;
        append_digits(&mut out, magnitude);
    } else {
        append_digits(&mut out, id as u64);
    }
    out
}

pub open spec fn driver_path(id: int, tail: Seq<Seq<char>>) -> Seq<Seq<char>> {
    seq!["timingData"@, "lines"@, decimal_text(id)] + tail
}

pub open spec fn gap_ahead_path(id: int) -> Seq<Seq<char>> {
    driver_path(id, seq!["intervalToPositionAhead"@, "value"@])
}

pub open spec fn gap_leader_path(id: int) -> Seq<Seq<char>> {
    driver_path(id, seq!["gapToLeader"@])
}

pub open spec fn laptime_path(id: int) -> Seq<Seq<char>> {
    driver_path(id, seq!["lastLapTime"@, "value"@])
}

pub open spec fn sector_path(id: int, nr: Seq<char>) -> Seq<Seq<char>> {
    driver_path(id, seq!["sectors"@, nr, "value"@])
}

fn field_text_of(doc: &Value, path: &Vec<String>) -> (r: Option<String>)
    ensures
        match r {
            Some(t) => field_text(doc@, view_path(path@)) == Some(t@),
            None => field_text(doc@, view_path(path@)) is None,
        },
{
    match doc.get_path(path) {
        Some(v) => match v {
            Value::Null => None,
            Value::Str(s) => if s.as_str().is_empty() {
                None
            } else {
                Some(s.clone())
            },
            _ => {
                let mut out = String::new();
                render_into(&mut out, v);
                if out.as_str().is_empty() {
                    None
                } else {
                    Some(out)
                }
            },
        },
        None => None,
    }
}

/// The series at `path` over the snapshots of `log`: the most recent
/// non-empty texts, newest first, at most `SERIES_LIMIT` of them.
pub fn project(log: &SnapshotLog, path: &Vec<String>) -> (r: Vec<String>)
    ensures
        texts(r@) == series(docs_of(*log), view_path(path@)),
        r@.len() <= SERIES_LIMIT,
{
    let ghost docs = docs_of(*log);
    let ghost vp = view_path(path@);
    let n = log.len();
    let mut out: Vec<String> = Vec::new();
    let mut i: usize = n;
    assert(docs.subrange(0, n as int) =~= docs);
    assert(texts(out@) =~= Seq::<Seq<char>>::empty());
    while i > 0 && out.len() < SERIES_LIMIT
        invariant
            i <= n,
            n == docs.len(),
            docs == docs_of(*log),
            vp == view_path(path@),
            out@.len() <= SERIES_LIMIT,
            newest_texts(docs, vp) == texts(out@) + newest_texts(docs.subrange(0, i as int), vp),
        decreases i,
    {
        i -= 1;
        let doc = log.doc_at(i);
        let ghost pre = docs.subrange(0, i + 1);
        assert(pre.subrange(0, i as int) =~= docs.subrange(0, i as int));
        assert(pre.last() == docs[i as int]);
        match field_text_of(doc, path) {
            Some(t) => {
                let ghost before = out@;
                out.push(t);
                assert(texts(out@) =~= texts(before).push(t@));
                assert(texts(out@) + newest_texts(docs.subrange(0, i as int), vp) =~= texts(before)
                    + (seq![t@] + newest_texts(docs.subrange(0, i as int), vp)));
            },
            None => {},
        }
    }
    if i == 0 {
        assert(docs.subrange(0, 0) =~= Seq::<Json>::empty());
        assert(texts(out@) + Seq::<Seq<char>>::empty() =~= texts(out@));
    } else {
        assert((texts(out@) + newest_texts(docs.subrange(0, i as int), vp)).subrange(
            0,
            SERIES_LIMIT as int,
        ) =~= texts(out@));
    }
    out
}

/// The recent history of one driver: each field's series, newest first.
#[derive(Clone, Debug, PartialEq, Eq)]
pub struct Driver {
    pub nr: i64,
    pub gap_ahead: Vec<String>,
    pub gap_leader: Vec<String>,
    pub laptime: Vec<String>,
    /// The series of sectors one, two and three, in that order.
    pub sectors: Vec<Vec<String>>,
}

/// The series of driver `id` over the snapshots of `log`: interval to the car
/// ahead, gap to the leader, last lap time and the three sector times. Every
/// field is present; a field never seen has an empty series.
pub fn get_driver(log: &SnapshotLog, id: i64) -> (r: Driver)
    ensures
        r.nr == id,
        texts(r.gap_ahead@) == series(docs_of(*log), gap_ahead_path(id as int)),
        texts(r.gap_leader@) == series(docs_of(*log), gap_leader_path(id as int)),
        texts(r.laptime@) == series(docs_of(*log), laptime_path(id as int)),
        r.sectors@.len() == 3,
        texts(r.sectors@[0]@) == series(docs_of(*log), sector_path(id as int, "1"@)),
        texts(r.sectors@[1]@) == series(docs_of(*log), sector_path(id as int, "2"@)),
        texts(r.sectors@[2]@) == series(docs_of(*log), sector_path(id as int, "3"@)),
{
    let key = id_text(id);
    let ahead_path = vec!["timingData".to_owned(), "lines".to_owned(), key.clone(), "intervalToPositionAhead".to_owned(), "value".to_owned()];
    assert(view_path(ahead_path@) =~= gap_ahead_path(id as int));
    let gap_ahead = project(log, &ahead_path);
    let leader_path = vec!["timingData".to_owned(), "lines".to_owned(), key.clone(), "gapToLeader".to_owned()];
    assert(view_path(leader_path@) =~= gap_leader_path(id as int));
    let gap_leader = project(log, &leader_path);
    let lap_path = vec!["timingData".to_owned(), "lines".to_owned(), key.clone(), "lastLapTime".to_owned(), "value".to_owned()];
    assert(view_path(lap_path@) =~= laptime_path(id as int));
    let laptime = project(log, &lap_path);
    let sector_1_path = vec!["timingData".to_owned(), "lines".to_owned(), key.clone(), "sectors".to_owned(), "1".to_owned(), "value".to_owned()];
    assert(view_path(sector_1_path@) =~= sector_path(id as int, "1"@));
    let sector_1 = project(log, &sector_1_path);
    let sector_2_path = vec!["timingData".to_owned(), "lines".to_owned(), key.clone(), "sectors".to_owned(), "2".to_owned(), "value".to_owned()];
    assert(view_path(sector_2_path@) =~= sector_path(id as int, "2"@));
    let sector_2 = project(log, &sector_2_path);
    let sector_3_path = vec!["timingData".to_owned(), "lines".to_owned(), key.clone(), "sectors".to_owned(), "3".to_owned(), "value".to_owned()];
    assert(view_path(sector_3_path@) =~= sector_path(id as int, "3"@));
    let sector_3 = project(log, &sector_3_path);
    let sectors = vec![sector_1, sector_2, sector_3];
    Driver { nr: id, gap_ahead, gap_leader, laptime, sectors }
}

} // verus!
