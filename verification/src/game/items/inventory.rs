use vstd::prelude::*;

verus! {

/// Name under which an item definition is registered.
pub type ItemID = String;

/// A number of items of one kind.
pub struct ItemStack {
    pub count: u32,
    pub id: ItemID,
}

/// A list of inventory slots, each empty or holding one stack.
pub struct Inventory {
    slots: Vec<Option<ItemStack>>,
}

impl Inventory {
    /// The slots of the inventory, in order.
    pub closed spec fn slots(&self) -> Seq<Option<ItemStack>> {
        self.slots@
    }

    /// An inventory with no slots.
    pub fn new() -> (r: Self)
        ensures
            r.slots() == Seq::<Option<ItemStack>>::empty(),
    {
        Self { slots: Vec::new() }
    }

    /// Number of slots.
    pub fn slot_count(&self) -> (r: usize)
        ensures
            r == self.slots().len(),
    {
        self.slots.len()
    }
}

} // verus!
