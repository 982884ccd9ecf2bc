use caryatid::monitor::{new_totals, total_writes, ModuleStreams, ReadPoll};

#[test]
fn publish_counts_only_successes() {
    let mut totals = new_totals();
    let mut m = ModuleStreams::new();
    let t = "topic".to_string();
    m.publish_started(&t, 100);
    assert_eq!(m.write_stream(&t).pending_since, Some(100));
    m.publish_finished(&mut totals, &t, true);
    m.publish_started(&t, 200);
    m.publish_finished(&mut totals, &t, false);
    let w = m.write_stream(&t);
    assert_eq!(w.written, 1);
    assert_eq!(w.pending_since, None);
    assert_eq!(total_writes(&totals, &t), 1);
    let metrics = m.write_metrics(300);
    assert_eq!(metrics.len(), 1);
    assert_eq!(metrics[0].topic, "topic");
    assert_eq!(metrics[0].count, 1);
    assert_eq!(metrics[0].pending_micros, None);
}

#[test]
fn backlog_is_writes_not_yet_read() {
    let mut totals = new_totals();
    let mut writer = ModuleStreams::new();
    let mut reader = ModuleStreams::new();
    let t = "t".to_string();
    reader.subscribed(&t);
    for _ in 0..3 {
        writer.publish_started(&t, 0);
        writer.publish_finished(&mut totals, &t, true);
    }
    reader.read_polled(&t, ReadPoll::ReadOk, 10);
    let m = reader.read_metrics(&totals, 20);
    assert_eq!(m.len(), 1);
    assert_eq!(m[0].count, 1);
    assert_eq!(m[0].backlog, Some(2));
    reader.read_polled(&t, ReadPoll::ReadOk, 30);
    reader.read_polled(&t, ReadPoll::ReadOk, 40);
    let m = reader.read_metrics(&totals, 50);
    assert_eq!(m[0].backlog, None);
}

#[test]
fn pending_read_time_runs_from_the_first_empty_poll() {
    let totals = new_totals();
    let mut reader = ModuleStreams::new();
    let t = "t".to_string();
    reader.subscribed(&t);
    reader.read_polled(&t, ReadPoll::Pending, 100);
    reader.read_polled(&t, ReadPoll::Pending, 150);
    let m = reader.read_metrics(&totals, 400);
    assert_eq!(m[0].pending_micros, Some(300));
    assert_eq!(m[0].backlog, None);
    reader.read_polled(&t, ReadPoll::ReadErr, 500);
    let m = reader.read_metrics(&totals, 600);
    assert_eq!(m[0].pending_micros, None);
    assert_eq!(m[0].count, 0);
    reader.read_polled(&t, ReadPoll::Pending, 700);
    reader.read_dropped(&t);
    assert_eq!(reader.read_stream(&t).pending_since, None);
}

#[test]
fn pending_time_never_negative() {
    let totals = new_totals();
    let mut reader = ModuleStreams::new();
    let t = "t".to_string();
    reader.read_polled(&t, ReadPoll::Pending, 1000);
    let m = reader.read_metrics(&totals, 10);
    assert_eq!(m[0].pending_micros, Some(0));
}

#[test]
fn snapshot_lists_each_topic_used_once() {
    let mut totals = new_totals();
    let mut m = ModuleStreams::new();
    for t in ["a", "b", "a", "c"] {
        m.subscribed(&t.to_string());
    }
    m.read_polled(&"d".to_string(), ReadPoll::Pending, 5);
    let mut reads: Vec<String> = m.read_metrics(&totals, 10).into_iter().map(|r| r.topic).collect();
    reads.sort();
    assert_eq!(reads, vec!["a", "b", "c", "d"]);
    m.publish_started(&"x".to_string(), 1);
    m.publish_finished(&mut totals, &"y".to_string(), false);
    m.publish_started(&"x".to_string(), 2);
    let mut writes: Vec<String> = m.write_metrics(10).into_iter().map(|w| w.topic).collect();
    writes.sort();
    assert_eq!(writes, vec!["x", "y"]);
}

#[test]
fn snapshot_counts_follow_the_history() {
    let mut totals = new_totals();
    let mut writer_a = ModuleStreams::new();
    let mut writer_b = ModuleStreams::new();
    let mut reader = ModuleStreams::new();
    let t = "t".to_string();
    reader.subscribed(&t);
    writer_a.publish_finished(&mut totals, &t, true);
    writer_b.publish_finished(&mut totals, &t, true);
    writer_b.publish_finished(&mut totals, &t, false);
    writer_a.publish_finished(&mut totals, &t, true);
    reader.read_polled(&t, ReadPoll::ReadOk, 1);
    reader.read_polled(&t, ReadPoll::ReadErr, 2);
    assert_eq!(total_writes(&totals, &t), 3);
    assert_eq!(writer_a.write_stream(&t).written, 2);
    assert_eq!(writer_b.write_stream(&t).written, 1);
    let m = reader.read_metrics(&totals, 3);
    assert_eq!(m[0].count, 1);
    assert_eq!(m[0].backlog, Some(2));
}
