use vstd::prelude::*;

use crate::query::{snap_view, SnapshotLog, StateSnapshot};
use crate::state::LiveState;

verus! {

/// Hands out capture timestamps for snapshots. Each one handed out is later
/// than all before it, whether or not the snapshot it stamped was stored.
#[derive(Clone, Copy, Debug, PartialEq, Eq)]
pub struct Keeper {
    pub last: Option<i64>,
}

/// The timestamp a tick hands out, given the last one and the clock reading;
/// `None` when no later timestamp can be written.
pub open spec fn next_stamp(last: Option<i64>, clock: i64) -> Option<i64> {
    match last {
        None => Some(clock),
        Some(l) => if clock > l {
            Some(clock)
        } else if l < i64::MAX {
            Some((l + 1) as i64)
        } else {
            None
        },
    }
}

impl Keeper {
    pub fn new() -> (r: Keeper)
        ensures
            r.last is None,
    {
        Keeper { last: None }
    }

    /// The timestamp for the snapshot of this tick, taken from the clock
    /// reading where that is later than the last one handed out.
    pub fn tick(&mut self, clock: i64) -> (r: Option<i64>)
        ensures
            r == next_stamp(old(self).last, clock),
            r is Some ==> final(self).last == r,
            r is None ==> final(self).last == old(self).last,
            old(self).last is Some && r is Some ==> r->0 > old(self).last->0,
            r is Some ==> r->0 >= clock,
    {
        let r = match self.last {
            None => Some(clock),
            Some(l) => {
                if clock > l {
                    Some(clock)
                } else if l < i64::MAX {
                    Some(l + 1)
                } else {
                    None
                }
            },
        };
        if r.is_some() {
            self.last = r;
        }
        r
    }
}

/// The keeper has stamped every snapshot that `log` holds: none is later than
/// its last stamp.
pub open spec fn keeps(k: Keeper, log: SnapshotLog) -> bool {
    log.wf() && (log.view_seq().len() == 0 || (k.last is Some && log.view_seq().last().1
        <= k.last->0))
}

/// One tick of the snapshot keeper: stamps the live document with the next
/// timestamp and appends it to `log`. The append always succeeds, and the
/// new snapshot is strictly later than every snapshot before it.
pub fn take_snapshot(k: &mut Keeper, log: &mut SnapshotLog, state: &LiveState, clock: i64) -> (r:
    Option<i64>)
    requires
        keeps(*old(k), *old(log)),
    ensures
        keeps(*final(k), *final(log)),
        r == next_stamp(old(k).last, clock),
        r is Some ==> final(log).view_seq() == old(log).view_seq().push(
            (state.document(), r->0),
        ),
        r is Some ==> forall|i: int|
            0 <= i < old(log).view_seq().len() ==> #[trigger] old(log).view_seq()[i].1 < r->0,
        r is None ==> final(log).view_seq() == old(log).view_seq(),
{
    let stamp = k.tick(clock);
    match stamp {
        Some(t) => {
            let snap = StateSnapshot { state: state.read(), time: t };
            assert(snap_view(snap) == (state.document(), t));
            let appended = log.append(snap);
            assert(appended is Ok);
            proof {
                let s = old(log).view_seq();
                assert forall|i: int| 0 <= i < s.len() implies #[trigger] s[i].1 < t by {
                    assert(s[i].1 <= s[s.len() - 1].1);
                }
            }
            stamp
        },
        None => stamp,
    }
}

} // verus!
