use live_state::feed::{Backoff, FeedAction, FeedEvent};
use live_state::json::Value;
use live_state::keeper::{take_snapshot, Keeper};
use live_state::merge::{merge_values, transform_value};
use live_state::project::{get_driver, project};
use live_state::query::{range, LogError, SnapshotLog, StateSnapshot};
use live_state::state::{LiveState, UpdateError};

fn s(t: &str) -> Value {
    Value::Str(t.to_string())
}

fn num(t: &str) -> Value {
    Value::Number(t.to_string())
}

fn obj(es: Vec<(&str, Value)>) -> Value {
    Value::Object(es.into_iter().map(|(k, v)| (k.to_string(), v)).collect())
}

fn driver_update(id: &str, fields: Vec<(&str, Value)>) -> Value {
    obj(vec![("timingData", obj(vec![("lines", obj(vec![(id, obj(fields))]))]))])
}

fn snapshot_of(state: &LiveState, time: i64) -> StateSnapshot {
    StateSnapshot { state: state.read(), time }
}

#[test]
fn scenario_gap_to_leader_is_newest_entry() {
    let mut live = LiveState::new();
    let mut log = SnapshotLog::new();
    live.apply_update(&driver_update("44", vec![("gapToLeader", s("+0.900"))])).unwrap();
    log.append(snapshot_of(&live, 1_000)).unwrap();
    live.apply_update(&driver_update("44", vec![("gapToLeader", s("+1.234"))])).unwrap();
    log.append(snapshot_of(&live, 2_000)).unwrap();
    let d = get_driver(&log, 44);
    assert_eq!(d.nr, 44);
    assert_eq!(d.gap_leader, vec!["+1.234".to_string(), "+0.900".to_string()]);
    assert!(d.gap_ahead.is_empty());
    assert!(d.laptime.is_empty());
    assert_eq!(d.sectors.len(), 3);
}

#[test]
fn scenario_empty_sector_value_is_excluded() {
    let mut live = LiveState::new();
    let mut log = SnapshotLog::new();
    let upd = driver_update("44", vec![("sectors", obj(vec![("2", obj(vec![("value", s(""))]))]))]);
    live.apply_update(&upd).unwrap();
    log.append(snapshot_of(&live, 10)).unwrap();
    let d = get_driver(&log, 44);
    assert!(d.sectors[1].is_empty());

    // The raw document with the empty value, as a store could hold it, is filtered too.
    let mut raw = SnapshotLog::new();
    raw.append(StateSnapshot { state: upd, time: 10 }).unwrap();
    let d = get_driver(&raw, 44);
    assert_eq!(d.sectors, vec![Vec::<String>::new(), Vec::new(), Vec::new()]);
}

#[test]
fn scenario_two_drivers_back_to_back() {
    let mut live = LiveState::new();
    live.apply_update(&driver_update("44", vec![("gapToLeader", s("+1.0"))])).unwrap();
    live.apply_update(&driver_update("1", vec![("gapToLeader", s("LAP 3"))])).unwrap();
    let doc = live.read();
    let expected = obj(vec![(
        "timingData",
        obj(vec![(
            "lines",
            obj(vec![
                ("44", obj(vec![("gapToLeader", s("+1.0"))])),
                ("1", obj(vec![("gapToLeader", s("LAP 3"))])),
            ]),
        )]),
    )]);
    assert_eq!(doc, expected);
}

#[test]
fn merge_twice_equals_merge_once() {
    let base = obj(vec![("a", obj(vec![("x", num("1")), ("y", s("old"))])), ("b", s("keep"))]);
    let upd = obj(vec![("a", obj(vec![("y", s("new")), ("z", obj(vec![("gone", Value::Null)]))])), ("c", Value::Bool(true))]);
    let once = merge_values(&base, &upd);
    let twice = merge_values(&once, &upd);
    assert_eq!(once, twice);
    let expected = obj(vec![
        ("a", obj(vec![("x", num("1")), ("y", s("new")), ("z", obj(vec![]))])),
        ("b", s("keep")),
        ("c", Value::Bool(true)),
    ]);
    assert_eq!(once, expected);
}

#[test]
fn null_marker_deletes_key() {
    let base = obj(vec![("a", obj(vec![("x", num("1")), ("y", s("v"))]))]);
    let upd = obj(vec![("a", obj(vec![("x", Value::Null)]))]);
    let r = merge_values(&base, &upd);
    assert_eq!(r, obj(vec![("a", obj(vec![("y", s("v"))]))]));
}

#[test]
fn scalar_replaces_object_and_array_replaces_array() {
    let base = obj(vec![("a", obj(vec![("x", num("1"))])), ("l", Value::Array(vec![num("1"), num("2")]))]);
    let upd = obj(vec![("a", s("flat")), ("l", Value::Array(vec![num("3")]))]);
    let r = merge_values(&base, &upd);
    assert_eq!(r, obj(vec![("a", s("flat")), ("l", Value::Array(vec![num("3")]))]));
}

#[test]
fn transform_drops_empty_strings() {
    let upd = obj(vec![("a", s("")), ("b", obj(vec![("c", s("")), ("d", s("x"))])), ("e", Value::Null)]);
    let t = transform_value(&upd);
    assert_eq!(t, obj(vec![("b", obj(vec![("d", s("x"))])), ("e", Value::Null)]));
}

#[test]
fn empty_update_keeps_previous_value() {
    let mut live = LiveState::new();
    live.apply_update(&driver_update("44", vec![("gapToLeader", s("+2.0"))])).unwrap();
    live.apply_update(&driver_update("44", vec![("gapToLeader", s(""))])).unwrap();
    assert_eq!(live.read(), driver_update("44", vec![("gapToLeader", s("+2.0"))]));
}

#[test]
fn non_object_update_is_refused() {
    let mut live = LiveState::new();
    live.apply_update(&obj(vec![("k", s("v"))])).unwrap();
    assert_eq!(live.apply_update(&s("junk")), Err(UpdateError::NotAnObject));
    assert_eq!(live.apply_update(&Value::Array(vec![])), Err(UpdateError::NotAnObject));
    assert_eq!(live.read(), obj(vec![("k", s("v"))]));
}

#[test]
fn reads_do_not_change_the_document() {
    let mut a = LiveState::new();
    let mut b = LiveState::new();
    let u1 = driver_update("44", vec![("gapToLeader", s("+1"))]);
    let u2 = driver_update("44", vec![("lastLapTime", obj(vec![("value", s("1:31.000"))]))]);
    a.apply_update(&u1).unwrap();
    a.apply_update(&u2).unwrap();
    b.apply_update(&u1).unwrap();
    let _ = b.read();
    let _ = b.read();
    b.apply_update(&u2).unwrap();
    assert_eq!(a.read(), b.read());
}

#[test]
fn keeper_timestamps_strictly_increase() {
    let mut k = Keeper::new();
    assert_eq!(k.tick(100), Some(100));
    assert_eq!(k.tick(100), Some(101));
    assert_eq!(k.tick(50), Some(102));
    assert_eq!(k.tick(500), Some(500));
    let mut full = Keeper { last: Some(i64::MAX) };
    assert_eq!(full.tick(0), None);
    assert_eq!(full.last, Some(i64::MAX));
}

#[test]
fn range_keeps_recent_snapshots_in_order() {
    let mut log = SnapshotLog::new();
    for t in [1_000i64, 5_000, 9_000, 9_000, 12_000] {
        log.append(StateSnapshot { state: obj(vec![("t", num(&t.to_string()))]), time: t }).unwrap();
    }
    let r = range(&log, 12_000, 3);
    let times: Vec<i64> = r.iter().map(|x| x.time).collect();
    assert_eq!(times, vec![9_000, 9_000, 12_000]);
    assert_eq!(r[2].state, obj(vec![("t", num("12000"))]));
    assert_eq!(range(&log, 12_000, 0).len(), 1);
    assert_eq!(range(&log, 12_000, 100).len(), 5);
    assert_eq!(range(&log, i64::MIN, u64::MAX).len(), 5);
}

#[test]
fn log_refuses_older_snapshot() {
    let mut log = SnapshotLog::new();
    log.append(StateSnapshot { state: Value::Null, time: 10 }).unwrap();
    assert_eq!(log.append(StateSnapshot { state: Value::Null, time: 9 }), Err(LogError::OutOfOrder));
    assert_eq!(log.len(), 1);
    let rows = vec![StateSnapshot { state: Value::Null, time: 2 }, StateSnapshot { state: Value::Null, time: 1 }];
    assert!(matches!(SnapshotLog::from_rows(rows), Err(LogError::OutOfOrder)));
    let rows = vec![StateSnapshot { state: Value::Null, time: 1 }, StateSnapshot { state: Value::Null, time: 1 }];
    assert_eq!(SnapshotLog::from_rows(rows).unwrap().len(), 2);
}

#[test]
fn series_is_capped_at_twenty_newest() {
    let mut log = SnapshotLog::new();
    for i in 0..30i64 {
        let upd = driver_update("7", vec![("lastLapTime", obj(vec![("value", s(&format!("1:3{}", i)))]))]);
        log.append(StateSnapshot { state: upd, time: i }).unwrap();
    }
    let d = get_driver(&log, 7);
    assert_eq!(d.laptime.len(), 20);
    assert_eq!(d.laptime[0], "1:329");
    assert_eq!(d.laptime[19], "1:310");
}

#[test]
fn series_reads_every_non_null_value_and_skips_gaps() {
    let mut log = SnapshotLog::new();
    let p = vec!["a".to_string(), "b".to_string()];
    log.append(StateSnapshot { state: obj(vec![("a", obj(vec![("b", num("1.5"))]))]), time: 1 }).unwrap();
    log.append(StateSnapshot { state: obj(vec![("a", obj(vec![]))]), time: 2 }).unwrap();
    log.append(StateSnapshot { state: obj(vec![("a", obj(vec![("b", Value::Null)]))]), time: 3 }).unwrap();
    log.append(StateSnapshot { state: obj(vec![("a", obj(vec![("b", Value::Bool(false))]))]), time: 4 }).unwrap();
    log.append(StateSnapshot { state: obj(vec![("a", obj(vec![("b", obj(vec![]))]))]), time: 5 }).unwrap();
    assert_eq!(project(&log, &p), vec!["{}".to_string(), "false".to_string(), "1.5".to_string()]);
}

#[test]
fn sectors_and_negative_ids_use_decimal_keys() {
    let mut log = SnapshotLog::new();
    let upd = driver_update(
        "-3",
        vec![(
            "sectors",
            obj(vec![
                ("1", obj(vec![("value", s("30.1"))])),
                ("3", obj(vec![("value", s("28.9"))])),
            ]),
        ), ("intervalToPositionAhead", obj(vec![("value", s("+0.4"))]))],
    );
    log.append(StateSnapshot { state: upd, time: 0 }).unwrap();
    let d = get_driver(&log, -3);
    assert_eq!(d.sectors[0], vec!["30.1".to_string()]);
    assert!(d.sectors[1].is_empty());
    assert_eq!(d.sectors[2], vec!["28.9".to_string()]);
    assert_eq!(d.gap_ahead, vec!["+0.4".to_string()]);
    assert!(get_driver(&log, 3).gap_ahead.is_empty());
}

#[test]
fn backoff_doubles_up_to_cap_then_gives_up() {
    let mut b = Backoff::new(100, 1_000, 5);
    assert_eq!(b.step(FeedEvent::Lost), FeedAction::RetryAfter(100));
    assert_eq!(b.step(FeedEvent::Lost), FeedAction::RetryAfter(200));
    assert_eq!(b.step(FeedEvent::Lost), FeedAction::RetryAfter(400));
    assert_eq!(b.step(FeedEvent::Lost), FeedAction::RetryAfter(800));
    assert_eq!(b.step(FeedEvent::Lost), FeedAction::RetryAfter(1_000));
    assert_eq!(b.step(FeedEvent::Lost), FeedAction::GiveUp);
    assert_eq!(b.failures, 5);
    assert_eq!(b.step(FeedEvent::Connected), FeedAction::Read);
    assert_eq!(b.failures, 0);
    assert_eq!(b.step(FeedEvent::Lost), FeedAction::RetryAfter(100));
}

#[test]
fn backoff_delay_saturates_at_cap() {
    let b = Backoff::new(u64::MAX / 2 + 1, u64::MAX, 3);
    assert_eq!(b.delay_for(0), u64::MAX / 2 + 1);
    assert_eq!(b.delay_for(1), u64::MAX);
    assert_eq!(b.delay_for(40), u64::MAX);
    let small = Backoff::new(5_000, 1_000, 3);
    assert_eq!(small.delay_for(0), 1_000);
}

#[test]
fn containers_project_as_json_text() {
    let mut log = SnapshotLog::new();
    let nested = obj(vec![
        ("a", Value::Array(vec![num("1"), s("x\"y\\z")])),
        ("b", obj(vec![])),
        ("c", s("line\n\u{1}")),
        ("d", Value::Null),
        ("e", Value::Bool(true)),
    ]);
    log.append(StateSnapshot { state: driver_update("44", vec![("gapToLeader", s("+0.5"))]), time: 1 }).unwrap();
    log.append(StateSnapshot { state: driver_update("44", vec![("gapToLeader", nested)]), time: 2 }).unwrap();
    let d = get_driver(&log, 44);
    assert_eq!(
        d.gap_leader,
        vec![
            "{\"a\": [1, \"x\\\"y\\\\z\"], \"b\": {}, \"c\": \"line\\n\\u0001\", \"d\": null, \"e\": true}".to_string(),
            "+0.5".to_string(),
        ]
    );
    let mut arr = SnapshotLog::new();
    arr.append(StateSnapshot { state: driver_update("44", vec![("sectors", obj(vec![("2", obj(vec![("value", Value::Array(vec![]))]))]))]), time: 0 }).unwrap();
    assert_eq!(get_driver(&arr, 44).sectors[1], vec!["[]".to_string()]);
}

#[test]
fn update_repeating_a_key_is_refused() {
    let mut live = LiveState::new();
    live.apply_update(&obj(vec![("k", s("v"))])).unwrap();
    let dup = obj(vec![("a", num("1")), ("a", num("2"))]);
    assert_eq!(live.apply_update(&dup), Err(UpdateError::DuplicateKey));
    let nested_dup = obj(vec![("x", obj(vec![("b", Value::Null), ("b", s("q"))]))]);
    assert_eq!(live.apply_update(&nested_dup), Err(UpdateError::DuplicateKey));
    assert_eq!(live.read(), obj(vec![("k", s("v"))]));
}

#[test]
fn applying_an_update_twice_matches_once() {
    let upd = driver_update("44", vec![("gapToLeader", s("+1.234")), ("sectors", obj(vec![("1", Value::Null), ("2", obj(vec![("value", s(""))]))]))]);
    let mut once = LiveState::new();
    let mut twice = LiveState::new();
    once.apply_update(&driver_update("44", vec![("sectors", obj(vec![("1", obj(vec![("value", s("30.0"))]))]))])).unwrap();
    twice.apply_update(&driver_update("44", vec![("sectors", obj(vec![("1", obj(vec![("value", s("30.0"))]))]))])).unwrap();
    once.apply_update(&upd).unwrap();
    twice.apply_update(&upd).unwrap();
    twice.apply_update(&upd).unwrap();
    assert_eq!(once.read(), twice.read());
    assert_eq!(once.read(), driver_update("44", vec![("sectors", obj(vec![("2", obj(vec![]))])), ("gapToLeader", s("+1.234"))]));
}

#[test]
fn twenty_newest_of_twenty_five_gaps() {
    let mut log = SnapshotLog::new();
    for i in 1..=25i64 {
        let upd = driver_update("44", vec![("gapToLeader", s(&format!("+{}.000", i)))]);
        log.append(StateSnapshot { state: upd, time: i }).unwrap();
    }
    let expected: Vec<String> = (6..=25).rev().map(|i| format!("+{}.000", i)).collect();
    assert_eq!(get_driver(&log, 44).gap_leader, expected);
}

#[test]
fn zero_and_smallest_ids_are_written_in_base_ten() {
    let mut log = SnapshotLog::new();
    log.append(StateSnapshot { state: driver_update("0", vec![("gapToLeader", s("+0.1"))]), time: 0 }).unwrap();
    log.append(StateSnapshot {
        state: driver_update("-9223372036854775808", vec![("gapToLeader", s("+0.2"))]),
        time: 1,
    })
    .unwrap();
    assert_eq!(get_driver(&log, 0).gap_leader, vec!["+0.1".to_string()]);
    assert_eq!(get_driver(&log, i64::MIN).gap_leader, vec!["+0.2".to_string()]);
    assert_eq!(get_driver(&log, 10).gap_leader, Vec::<String>::new());
}

#[test]
fn scenario_two_drivers_in_either_order() {
    let u44 = driver_update("44", vec![("gapToLeader", s("+1.0"))]);
    let u1 = driver_update("1", vec![("gapToLeader", s("LAP 3"))]);
    let mut a = LiveState::new();
    let mut b = LiveState::new();
    a.apply_update(&u44).unwrap();
    a.apply_update(&u1).unwrap();
    b.apply_update(&u1).unwrap();
    b.apply_update(&u44).unwrap();
    let mut la = SnapshotLog::new();
    let mut lb = SnapshotLog::new();
    la.append(snapshot_of(&a, 5)).unwrap();
    lb.append(snapshot_of(&b, 5)).unwrap();
    assert_eq!(get_driver(&la, 44), get_driver(&lb, 44));
    assert_eq!(get_driver(&la, 1), get_driver(&lb, 1));
    assert_eq!(get_driver(&la, 44).gap_leader, vec!["+1.0".to_string()]);
    assert_eq!(get_driver(&lb, 1).gap_leader, vec!["LAP 3".to_string()]);
}

#[test]
fn keeper_snapshots_enter_the_log_in_strict_order() {
    let mut k = Keeper::new();
    let mut log = SnapshotLog::new();
    let mut live = LiveState::new();
    live.apply_update(&driver_update("44", vec![("gapToLeader", s("+1.234"))])).unwrap();
    assert_eq!(take_snapshot(&mut k, &mut log, &live, 1_000), Some(1_000));
    assert_eq!(take_snapshot(&mut k, &mut log, &live, 900), Some(1_001));
    assert_eq!(take_snapshot(&mut k, &mut log, &live, 1_001), Some(1_002));
    assert_eq!(log.len(), 3);
    let times: Vec<i64> = range(&log, 1_002, 10).iter().map(|x| x.time).collect();
    assert_eq!(times, vec![1_000, 1_001, 1_002]);
    assert_eq!(get_driver(&log, 44).gap_leader[0], "+1.234");
}
