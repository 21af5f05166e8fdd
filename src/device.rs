//! Device records as the server reports them, and their classification.

use vstd::prelude::*;

verus! {

/// One device of the server's priority list.
#[derive(Clone, Debug)]
pub struct DeviceInfo {
    /// Server-assigned identifier; output devices carry the prefix `sink`.
    pub name: String,
    /// Human-readable label.
    pub description: String,
    /// Priority rank: lower means higher priority.
    pub index: u32,
}

impl DeviceInfo {
    pub fn new(name: String, description: String, index: u32) -> (r: Self)
        ensures
            r.name == name,
            r.description == description,
            r.index == index,
    {
        DeviceInfo { name, description, index }
    }
}

/// The class of a device, read once from its name.
#[derive(Clone, Copy, Debug, PartialEq, Eq, Structural)]
pub enum DeviceClass {
    /// A playback device (its name starts with `sink`).
    Output,
    /// Anything else, such as a capture device.
    Other,
}

/// The prefix that marks an output device's name.
pub open spec fn output_prefix() -> Seq<char> {
    seq!['s', 'i', 'n', 'k']
}

/// Whether a name starts with the output prefix.
pub open spec fn has_output_prefix(name: Seq<char>) -> bool {
    name.len() >= 4 && name.subrange(0, 4) == output_prefix()
}

pub open spec fn class_of(name: Seq<char>) -> DeviceClass {
    if has_output_prefix(name) {
        DeviceClass::Output
    } else {
        DeviceClass::Other
    }
}

pub open spec fn is_output(d: DeviceInfo) -> bool {
    has_output_prefix(d.name@)
}

/// The output devices of `s`, in their order in `s`.
pub open spec fn outputs(s: Seq<DeviceInfo>) -> Seq<DeviceInfo>
    decreases s.len(),
{
    if s.len() == 0 {
        Seq::empty()
    } else if is_output(s.last()) {
        outputs(s.drop_last()).push(s.last())
    } else {
        outputs(s.drop_last())
    }
}

/// Classifies a device by its name.
pub fn classify(name: &str) -> (r: DeviceClass)
    ensures
        r == class_of(name@),
{
    let n = name.unicode_len();
    if n < 4 {
        return DeviceClass::Other;
    }
    let prefix = ['s', 'i', 'n', 'k'];
    let mut i: usize = 0;
    while i < 4
        invariant
            n == name@.len(),
            4 <= n,
            i <= 4,
            prefix@ == output_prefix(),
            forall|j: int| 0 <= j < i ==> name@[j] == output_prefix()[j],
        decreases 4 - i,
    {
        if name.get_char(i) != prefix[i] {
            assert(name@.subrange(0, 4)[i as int] != output_prefix()[i as int]);
            return DeviceClass::Other;
        }
        i = i + 1;
    }
    assert(name@.subrange(0, 4) =~= output_prefix());
    DeviceClass::Output
}

/// One answer of the server to a read of the priority list.
pub enum ListEvent {
    /// A device of the list.
    Item(DeviceInfo),
    /// The list is complete.
    End,
    /// The server could not produce the list.
    Error,
}

/// Takes in one answer of a list read: an output device is appended to
/// `found`; other devices, the end marker and the error marker change nothing.
pub fn on_list_event(found: &mut Vec<DeviceInfo>, event: ListEvent)
    ensures
        match event {
            ListEvent::Item(d) => final(found)@ == if is_output(d) {
                old(found)@.push(d)
            } else {
                old(found)@
            },
            _ => final(found)@ == old(found)@,
        },
{
    match event {
        ListEvent::Item(d) => {
            if classify(d.name.as_str()) == DeviceClass::Output {
                found.push(d);
            }
        },
        _ => {},
    }
}

} // verus!
