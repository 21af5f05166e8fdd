//! Choosing the device to promote, and the ordering sent to the server.

use vstd::prelude::*;

use crate::device::DeviceInfo;

verus! {

/// A selection that the list cannot serve.
#[derive(Clone, Copy, Debug, PartialEq, Eq, Structural)]
pub enum SelectError {
    /// The 1-based position given is out of range.
    InvalidIndex(usize),
}

/// Whether a 1-based position is accepted for a list of `count` devices.
/// The last position is refused along with 0 and anything past the end.
pub open spec fn select_accepted(index: usize, count: usize) -> bool {
    1 <= index < count
}

/// Checks a 1-based position against a list of `count` devices and gives
/// the 0-based position.
pub fn validate_select(index: usize, count: usize) -> (r: Result<usize, SelectError>)
    ensures
        select_accepted(index, count) ==> r == Ok::<usize, SelectError>((index - 1) as usize),
        !select_accepted(index, count) ==> r == Err::<usize, SelectError>(
            SelectError::InvalidIndex(index),
        ),
{
    if index > 0 && index < count {
        Ok(index - 1)
    } else {
        Err(SelectError::InvalidIndex(index))
    }
}

/// A copy of a device record with the same fields.
pub fn copy_device(d: &DeviceInfo) -> (r: DeviceInfo)
    ensures
        r == *d,
{
    DeviceInfo::new(d.name.clone(), d.description.clone(), d.index)
}

/// The ordering that promotes the device at 1-based position `index` of
/// `list`: that device alone.
pub fn select_device(list: &Vec<DeviceInfo>, index: usize) -> (r: Result<
    Vec<DeviceInfo>,
    SelectError,
>)
    ensures
        select_accepted(index, list@.len() as usize) ==> r is Ok && r->Ok_0@ == seq![
            list@[index - 1],
        ],
        !select_accepted(index, list@.len() as usize) ==> r == Err::<Vec<DeviceInfo>, SelectError>(
            SelectError::InvalidIndex(index),
        ),
{
    match validate_select(index, list.len()) {
        Ok(p) => {
            let mut order: Vec<DeviceInfo> = Vec::new();
            order.push(copy_device(&list[p]));
            Ok(order)
        },
        Err(e) => Err(e),
    }
}

/// The names of the devices of an ordering, in order: what a reorder request
/// sends to the server.
pub fn device_names(order: &Vec<DeviceInfo>) -> (r: Vec<String>)
    ensures
        r@.len() == order@.len(),
        forall|i: int| 0 <= i < r@.len() ==> #[trigger] r@[i] == order@[i].name,
{
    let mut names: Vec<String> = Vec::new();
    let mut i: usize = 0;
    while i < order.len()
        invariant
            i <= order@.len(),
            names@.len() == i,
            forall|j: int| 0 <= j < i ==> #[trigger] names@[j] == order@[j].name,
        decreases order@.len() - i,
    {
        names.push(order[i].name.clone());
        i = i + 1;
    }
    names
}

} // verus!
