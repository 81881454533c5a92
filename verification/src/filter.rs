//! The BPM object: a filter effect that only carries a tempo, a beat and an
//! offset for the watcher to read.
use vstd::prelude::*;

verus! {

/// The name of the BPM object's effect.
pub const OBJECT_NAME: &'static str = "BPMオブジェクト";

/// The name of its tempo item.
pub const TEMPO_ITEM: &'static str = "BPM";

/// The name of its beat item.
pub const BEAT_ITEM: &'static str = "拍子";

/// The name of its offset item.
pub const OFFSET_ITEM: &'static str = "オフセット";

/// The BPM object filter.
#[derive(Clone, Copy, Debug, PartialEq, Eq, Structural)]
pub struct BpmObject;

impl BpmObject {
    /// The filter; it holds no state.
    pub fn new() -> (object: Self)
        ensures
            object == BpmObject,
    {
        BpmObject
    }
}

} // verus!
