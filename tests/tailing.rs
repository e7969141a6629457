use cri_tail::cri::OutputStream;
use cri_tail::events::{route_event, should_skip, Action, WatchEvent};
use cri_tail::offsets::OffsetTable;

#[test]
fn unseen_path_starts_at_zero() {
    let t = OffsetTable::new();
    assert_eq!(t.offset_of("/var/log/a.log"), 0);
}

#[test]
fn offset_is_sum_of_line_bytes() {
    let mut t = OffsetTable::new();
    let l1 = "2021-01-16T02:02:11.1Z stdout F one\n";
    let l2 = "2021-01-16T02:02:12.1Z stderr F two\n";
    let r1 = t.take_line("/a", l1);
    let r2 = t.take_line("/a", l2);
    assert_eq!(t.offset_of("/a"), (l1.len() + l2.len()) as u64);
    assert_eq!(r1.len(), 1);
    assert_eq!(r2[0].stream, OutputStream::StdErr);
    assert_eq!(t.offset_of("/b"), 0);
}

#[test]
fn offset_moves_past_lines_that_do_not_parse() {
    let mut t = OffsetTable::new();
    let r = t.take_line("/a", "partial li");
    assert!(r.is_empty());
    assert_eq!(t.offset_of("/a"), 10);
}

#[test]
fn offset_counts_bytes_not_characters() {
    let mut t = OffsetTable::new();
    t.take_line("/a", "\u{e9}\n");
    assert_eq!(t.offset_of("/a"), 3);
}

#[test]
fn offsets_are_kept_per_path() {
    let mut t = OffsetTable::new();
    t.advance("/a", 7);
    t.advance("/b", 2);
    t.advance("/a", 5);
    assert_eq!(t.offset_of("/a"), 12);
    assert_eq!(t.offset_of("/b"), 2);
}

#[test]
fn skip_paths_holding_host_name() {
    assert!(should_skip("/var/log/pods/myhost_x/0.log", "myhost"));
    assert!(!should_skip("/var/log/pods/other/0.log", "myhost"));
    assert!(!should_skip("host", "myhost"));
    assert!(should_skip("myhost", "myhost"));
}

#[test]
fn write_is_read_unless_own() {
    let host = "myhost";
    assert_eq!(route_event(&WatchEvent::Write("/logs/a.log".to_string()), host), Action::ReadFile);
    assert_eq!(route_event(&WatchEvent::Write("/logs/myhost.log".to_string()), host), Action::Ignore);
}

#[test]
fn own_paths_never_surface() {
    let host = "myhost";
    let own = "/logs/myhost/a.log".to_string();
    let events = vec![
        WatchEvent::NoticeWrite(own.clone()),
        WatchEvent::NoticeRemove(own.clone()),
        WatchEvent::Create(own.clone()),
        WatchEvent::Write(own.clone()),
        WatchEvent::Chmod(own.clone()),
        WatchEvent::Remove(own.clone()),
        WatchEvent::Rename(own.clone(), "/logs/b.log".to_string()),
        WatchEvent::Rename("/logs/b.log".to_string(), own.clone()),
        WatchEvent::Error("boom".to_string(), Some(own.clone())),
    ];
    for e in events.iter() {
        assert_eq!(route_event(e, host), Action::Ignore);
    }
}

#[test]
fn other_events_are_reported() {
    let host = "myhost";
    assert_eq!(route_event(&WatchEvent::Create("/logs/a.log".to_string()), host), Action::Report);
    assert_eq!(route_event(&WatchEvent::Rescan, host), Action::Report);
    assert_eq!(route_event(&WatchEvent::Error("boom".to_string(), None), host), Action::Report);
    assert_eq!(
        route_event(&WatchEvent::Rename("/logs/a".to_string(), "/logs/b".to_string()), host),
        Action::Report
    );
}
