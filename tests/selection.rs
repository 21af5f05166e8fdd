use pulsepriority::device::{DeviceInfo, ListEvent};
use pulsepriority::order::enumerate;
use pulsepriority::select::{copy_device, device_names, select_device, validate_select, SelectError};

fn dev(name: &str, description: &str, index: u32) -> DeviceInfo {
    DeviceInfo::new(name.to_string(), description.to_string(), index)
}

#[test]
fn select_bounds() {
    let n = 4;
    assert_eq!(validate_select(0, n), Err(SelectError::InvalidIndex(0)));
    assert_eq!(validate_select(n, n), Err(SelectError::InvalidIndex(n)));
    assert_eq!(validate_select(n + 1, n), Err(SelectError::InvalidIndex(n + 1)));
    for i in 1..n {
        assert_eq!(validate_select(i, n), Ok(i - 1));
    }
    assert_eq!(validate_select(1, 1), Err(SelectError::InvalidIndex(1)));
    assert_eq!(validate_select(1, 0), Err(SelectError::InvalidIndex(1)));
}

#[test]
fn select_device_picks_position() {
    let list = vec![dev("sink.a", "A", 0), dev("sink.b", "B", 1), dev("sink.c", "C", 2)];
    let order = select_device(&list, 2).unwrap();
    assert_eq!(order.len(), 1);
    assert_eq!(order[0].name, "sink.b");
    assert_eq!(order[0].description, "B");
    assert_eq!(order[0].index, 1);
    assert_eq!(select_device(&list, 3).unwrap_err(), SelectError::InvalidIndex(3));
    assert_eq!(select_device(&list, 0).unwrap_err(), SelectError::InvalidIndex(0));
}

#[test]
fn copy_keeps_fields() {
    let c = copy_device(&dev("sink.q", "Q", 9));
    assert_eq!((c.name.as_str(), c.description.as_str(), c.index), ("sink.q", "Q", 9));
}

#[test]
fn names_in_order() {
    let names = device_names(&vec![dev("sink.b", "B", 1), dev("sink.a", "A", 0)]);
    assert_eq!(names, vec!["sink.b".to_string(), "sink.a".to_string()]);
    assert!(device_names(&Vec::new()).is_empty());
}

/// A stand-in for the server: reordering gives the named devices the first
/// ranks, in the order named, and keeps the others after them in their order.
struct MockServer {
    devices: Vec<(String, String, u32)>,
}

impl MockServer {
    fn read(&self) -> Vec<ListEvent> {
        let mut events: Vec<ListEvent> = self
            .devices
            .iter()
            .map(|(n, d, i)| ListEvent::Item(dev(n, d, *i)))
            .collect();
        events.push(ListEvent::End);
        events
    }

    fn reorder(&mut self, names: &[String]) {
        let mut ranked: Vec<(String, u32)> = Vec::new();
        for n in names {
            ranked.push((n.clone(), ranked.len() as u32));
        }
        let mut others: Vec<&mut (String, String, u32)> = Vec::new();
        for d in self.devices.iter_mut() {
            if let Some((_, r)) = ranked.iter().find(|(n, _)| *n == d.0) {
                d.2 = *r;
            } else {
                others.push(d);
            }
        }
        others.sort_by_key(|d| d.2);
        let base = names.len() as u32;
        for (k, d) in others.into_iter().enumerate() {
            d.2 = base + k as u32;
        }
    }
}

#[test]
fn reorder_then_reenumerate() {
    let mut server = MockServer {
        devices: vec![
            ("sink1".to_string(), "Speakers".to_string(), 0),
            ("sink2".to_string(), "Headphones".to_string(), 1),
            ("source1".to_string(), "Mic".to_string(), 2),
            ("sink3".to_string(), "HDMI".to_string(), 3),
        ],
    };
    let before = enumerate(server.read());
    assert_eq!(before[0].description, "Speakers");
    let order = select_device(&before, 2).unwrap();
    server.reorder(&device_names(&order));
    let after = enumerate(server.read());
    let descs: Vec<&str> = after.iter().map(|d| d.description.as_str()).collect();
    assert_eq!(descs, vec!["Headphones", "Speakers", "HDMI"]);
}
