use pulsepriority::device::{classify, on_list_event, DeviceClass, DeviceInfo, ListEvent};
use pulsepriority::order::{enumerate, sort_by_index};
use pulsepriority::table::format_table;

fn dev(name: &str, description: &str, index: u32) -> DeviceInfo {
    DeviceInfo::new(name.to_string(), description.to_string(), index)
}

fn item(name: &str, description: &str, index: u32) -> ListEvent {
    ListEvent::Item(dev(name, description, index))
}

fn summary(list: &[DeviceInfo]) -> Vec<(String, u32)> {
    list.iter().map(|d| (d.description.clone(), d.index)).collect()
}

#[test]
fn new_keeps_fields() {
    let d = DeviceInfo::new("sink.a".to_string(), "A".to_string(), 7);
    assert_eq!(d.name, "sink.a");
    assert_eq!(d.description, "A");
    assert_eq!(d.index, 7);
}

#[test]
fn classify_by_prefix() {
    assert_eq!(classify("sink1"), DeviceClass::Output);
    assert_eq!(classify("sink"), DeviceClass::Output);
    assert_eq!(classify("source1"), DeviceClass::Other);
    assert_eq!(classify("sin"), DeviceClass::Other);
    assert_eq!(classify(""), DeviceClass::Other);
    assert_eq!(classify("Sink1"), DeviceClass::Other);
}

#[test]
fn list_event_keeps_outputs_only() {
    let mut found = Vec::new();
    on_list_event(&mut found, item("sink1", "Speakers", 2));
    on_list_event(&mut found, item("source1", "Mic", 0));
    on_list_event(&mut found, ListEvent::End);
    on_list_event(&mut found, ListEvent::Error);
    assert_eq!(summary(&found), vec![("Speakers".to_string(), 2)]);
}

#[test]
fn sorted_ascending_distinct() {
    let r = sort_by_index(vec![dev("sink.c", "C", 5), dev("sink.a", "A", 1), dev("sink.b", "B", 3)]);
    assert_eq!(
        summary(&r),
        vec![("A".to_string(), 1), ("B".to_string(), 3), ("C".to_string(), 5)]
    );
}

#[test]
fn sort_is_stable_on_ties() {
    let r = sort_by_index(vec![
        dev("sink.x", "X", 2),
        dev("sink.y", "Y", 1),
        dev("sink.z", "Z", 2),
        dev("sink.w", "W", 1),
    ]);
    assert_eq!(
        summary(&r),
        vec![
            ("Y".to_string(), 1),
            ("W".to_string(), 1),
            ("X".to_string(), 2),
            ("Z".to_string(), 2)
        ]
    );
}

#[test]
fn sort_empty_and_largest_index() {
    assert!(sort_by_index(Vec::new()).is_empty());
    let r = sort_by_index(vec![dev("sink.m", "M", u32::MAX), dev("sink.n", "N", 0)]);
    assert_eq!(summary(&r), vec![("N".to_string(), 0), ("M".to_string(), u32::MAX)]);
}

#[test]
fn sources_never_listed() {
    let r = enumerate(vec![
        item("source.mic", "Mic", 0),
        item("sink.a", "A", 4),
        item("monitor", "Monitor", 1),
        item("sink.b", "B", 3),
        ListEvent::End,
    ]);
    assert_eq!(summary(&r), vec![("B".to_string(), 3), ("A".to_string(), 4)]);
    assert!(r.iter().all(|d| d.name.starts_with("sink")));
}

#[test]
fn enumerate_nothing() {
    assert!(enumerate(vec![ListEvent::Error]).is_empty());
    assert!(enumerate(Vec::new()).is_empty());
}

#[test]
fn list_scenario_prints_outputs_by_priority() {
    let r = enumerate(vec![
        item("sink1", "Speakers", 2),
        item("sink2", "Headphones", 1),
        item("source1", "Mic", 0),
        ListEvent::End,
    ]);
    assert_eq!(
        summary(&r),
        vec![("Headphones".to_string(), 1), ("Speakers".to_string(), 2)]
    );
    assert_eq!(format_table(&r), "Index  Name\n  1    Headphones\n  2    Speakers\n\n");
}
