use vstd::prelude::*;

use crate::json::{Json, Value};

verus! {

/// The most entries a projected series holds.
pub const SERIES_LIMIT: usize = 20;

/// A query for the snapshots of the last `delay` seconds.
#[derive(Clone, Copy, Debug, PartialEq, Eq)]
pub struct DelayQuery {
    pub delay: u64,
}

/// A document captured at `time`, in milliseconds since the Unix epoch.
#[derive(Debug, PartialEq, Eq)]
pub struct StateSnapshot {
    pub state: Value,
    pub time: i64,
}

pub open spec fn snap_view(s: StateSnapshot) -> (Json, i64) {
    (s.state@, s.time)
}

pub open spec fn snaps_view(s: Seq<StateSnapshot>) -> Seq<(Json, i64)> {
    s.map_values(|x: StateSnapshot| snap_view(x))
}

pub open spec fn time_ordered(s: Seq<(Json, i64)>) -> bool {
    forall|i: int, j: int| 0 <= i < j < s.len() ==> s[i].1 <= s[j].1
}

/// Why a snapshot or a batch of snapshots was refused by the log.
#[derive(Clone, Copy, Debug, PartialEq, Eq)]
pub enum LogError {
    /// A snapshot is older than one before it.
    OutOfOrder,
}

/// The snapshot history of a session, oldest first.
pub struct SnapshotLog {
    entries: Vec<StateSnapshot>,
}

impl SnapshotLog {
    pub closed spec fn view_seq(&self) -> Seq<(Json, i64)> {
        snaps_view(self.entries@)
    }

    /// Snapshots are held in non-decreasing order of time.
    pub open spec fn wf(&self) -> bool {
        time_ordered(self.view_seq())
    }

    pub fn new() -> (r: SnapshotLog)
        ensures
            r.wf(),
            r.view_seq() == Seq::<(Json, i64)>::empty(),
    {
        let r = SnapshotLog { entries: Vec::new() };
        assert(r.view_seq() =~= Seq::<(Json, i64)>::empty());
        r
    }

    /// The document of the snapshot at position `i`, oldest first.
    pub fn doc_at(&self, i: usize) -> (r: &Value)
        requires
            i < self.view_seq().len(),
        ensures
            r@ == self.view_seq()[i as int].0,
    {
        &self.entries[i].state
    }

    pub fn len(&self) -> (r: usize)
        ensures
            r == self.view_seq().len(),
    {
        self.entries.len()
    }

    /// Appends a snapshot taken no earlier than the last one held.
    pub fn append(&mut self, snap: StateSnapshot) -> (r: Result<(), LogError>)
        requires
            old(self).wf(),
        ensures
            final(self).wf(),
            r is Ok <==> (old(self).view_seq().len() == 0 || old(self).view_seq().last().1
                <= snap.time),
            r is Ok ==> final(self).view_seq() == old(self).view_seq().push(snap_view(snap)),
            r is Err ==> final(self).view_seq() == old(self).view_seq(),
    {
        let n = self.entries.len();
        if n > 0 && self.entries[n - 1].time > snap.time {
            return Err(LogError::OutOfOrder);
        }
        let ghost before = self.entries@;
        let ghost sv = snap_view(snap);
        self.entries.push(snap);
        assert(snaps_view(self.entries@) =~= snaps_view(before).push(sv));
        assert forall|a: int, b: int|
            0 <= a < b < self.view_seq().len() implies self.view_seq()[a].1
            <= self.view_seq()[b].1 by {
            if b == n {
                assert(snaps_view(before)[n - 1].1 == before[n - 1].time);
            }
        }
        Ok(())
    }

    /// A log holding `rows`, which a scan of the store returned oldest first.
    pub fn from_rows(rows: Vec<StateSnapshot>) -> (r: Result<SnapshotLog, LogError>)
        ensures
            r is Ok <==> time_ordered(snaps_view(rows@)),
            r matches Ok(log) ==> log.wf() && log.view_seq() == snaps_view(rows@),
    {
        let mut i: usize = 1;
        while i < rows.len()
            invariant
                1 <= i,
                forall|a: int, b: int|
                    0 <= a < b < i && b < rows.len() ==> rows@[a].time <= rows@[b].time,
            decreases rows.len() - i,
        {
            if rows[i - 1].time > rows[i].time {
                assert(!time_ordered(snaps_view(rows@))) by {
                    assert(snaps_view(rows@)[i - 1].1 > snaps_view(rows@)[i as int].1);
                }
                return Err(LogError::OutOfOrder);
            }
            i += 1;
        }
        let log = SnapshotLog { entries: rows };
        Ok(log)
    }
}

/// The snapshots of `s` taken at or after `cutoff`, in their order.
pub open spec fn since(s: Seq<(Json, i64)>, cutoff: int) -> Seq<(Json, i64)>
    decreases s.len(),
{
    if s.len() == 0 {
        Seq::empty()
    } else {
        let front = since(s.subrange(0, s.len() - 1), cutoff);
        if s.last().1 >= cutoff {
            front.push(s.last())
        } else {
            front
        }
    }
}

pub proof fn lemma_since_ordered(s: Seq<(Json, i64)>, cutoff: int)
    requires
        time_ordered(s),
    ensures
        time_ordered(since(s, cutoff)),
        forall|i: int| 0 <= i < since(s, cutoff).len() ==> #[trigger] since(s, cutoff)[i].1 >= cutoff,
        forall|i: int| 0 <= i < since(s, cutoff).len() ==> s.contains(#[trigger] since(s, cutoff)[i]),
    decreases s.len(),
{
    if s.len() > 0 {
        let f = s.subrange(0, s.len() - 1);
        lemma_since_ordered(f, cutoff);
        let r = since(f, cutoff);
        assert forall|i: int| 0 <= i < r.len() implies s.contains(#[trigger] r[i]) by {
            let j = choose|j: int| 0 <= j < f.len() && f[j] == r[i];
            assert(s[j] == r[i]);
        }
        if s.last().1 >= cutoff {
            assert(s[s.len() - 1] == s.last());
            assert forall|i: int| 0 <= i < r.len() implies r[i].1 <= s.last().1 by {
                let j = choose|j: int| 0 <= j < f.len() && f[j] == r[i];
                assert(s[j] == r[i]);
            }
        }
    }
}

fn copy_snapshot(s: &StateSnapshot) -> (r: StateSnapshot)
    ensures
        snap_view(r) == snap_view(*s),
{
    StateSnapshot { state: s.state.deep_copy(), time: s.time }
}

/// Replay of recent history: every snapshot of `log` captured at or after
/// `now - delay` seconds, oldest first. Times are in milliseconds.
pub fn range(log: &SnapshotLog, now: i64, delay: u64) -> (r: Vec<StateSnapshot>)
    requires
        log.wf(),
    ensures
        snaps_view(r@) == since(log.view_seq(), now - delay * 1000),
        time_ordered(snaps_view(r@)),
        forall|i: int| 0 <= i < r@.len() ==> #[trigger] r@[i].time >= now - delay * 1000,
{
    let ghost s = log.view_seq();
    let ghost cutoff: int = now - delay * 1000;
    let mut out: Vec<StateSnapshot> = Vec::new();
    let mut i: usize = 0;
    assert(s.subrange(0, 0) =~= Seq::<(Json, i64)>::empty());
    assert(snaps_view(out@) =~= Seq::<(Json, i64)>::empty());
    while i < log.entries.len()
        invariant
            i <= log.entries.len(),
            s == log.view_seq(),
            s == snaps_view(log.entries@),
            cutoff == now - delay * 1000,
            snaps_view(out@) == since(s.subrange(0, i as int), cutoff),
        decreases log.entries.len() - i,
    {
        let t = log.entries[i].time;
        let keep = (t as i128) + (delay as i128) * 1000 >= now as i128;
        assert(s.subrange(0, i + 1).subrange(0, i as int) =~= s.subrange(0, i as int));
        assert(s.subrange(0, i + 1).last() == s[i as int]);
        if keep {
            let c = copy_snapshot(&log.entries[i]);
            let ghost before = out@;
            out.push(c);
            assert(snaps_view(out@) =~= snaps_view(before).push(snap_view(c)));
        }
        i += 1;
    }
    assert(s.subrange(0, i as int) =~= s);
    proof {
        lemma_since_ordered(s, cutoff);
        assert forall|k: int| 0 <= k < out@.len() implies #[trigger] out@[k].time >= cutoff by {
            assert(snaps_view(out@)[k].1 == out@[k].time);
        }
    }
    out
}

} // verus!
