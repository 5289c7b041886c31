use vstd::prelude::*;

verus! {

/// Identifies a draw layer. Layers are drawn in the order in which a draw
/// manager lists them.
#[derive(Clone, Copy, PartialEq, Eq, Structural, Hash, PartialOrd, Ord, Debug)]
pub struct LayerId(pub i32);

impl LayerId {
    /// The layer drawn first.
    pub fn background_layer() -> (id: LayerId)
        ensures
            id == LayerId(0),
    {
        LayerId(0)
    }

    /// The layer of ordinary content.
    pub fn content_layer() -> (id: LayerId)
        ensures
            id == LayerId(1),
    {
        LayerId(1)
    }

    /// The layer drawn over everything else.
    pub fn overlay_layer() -> (id: LayerId)
        ensures
            id == LayerId(2),
    {
        LayerId(2)
    }
}

} // verus!
