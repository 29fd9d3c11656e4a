//! Item kinds.

use crate::registry::{find_named, lemma_position, position_of, Named};
use crate::strings::{contains_text, has_text};
use vstd::prelude::*;

verus! {

/// Index of an item kind in the registry.
#[derive(Clone, Copy, Debug, PartialEq, Eq, Hash, Structural)]
pub struct ItemSlot(pub u16);

/// One item kind.
pub struct ItemDef {
    pub id: String,
    /// What the item is good for as a tool.
    pub tool_tags: Vec<String>,
}

/// Every item kind, by slot.
pub struct ItemRegistry {
    pub defs: Vec<ItemDef>,
}

impl Named for ItemDef {
    open spec fn name(&self) -> Seq<char> {
        self.id@
    }

    fn is_named(&self, id: &String) -> bool {
        self.id == *id
    }
}

impl ItemRegistry {
    /// Slots fit their index type.
    pub open spec fn valid(&self) -> bool {
        self.defs@.len() <= 0x1_0000
    }

    /// The slot of an item id.
    pub open spec fn find(&self, id: Seq<char>) -> Option<ItemSlot> {
        match position_of(self.defs@, id, 0) {
            Some(k) => Some(ItemSlot(k as u16)),
            None => None,
        }
    }

    pub fn slot_of(&self, id: &String) -> (r: Option<ItemSlot>)
        requires
            self.valid(),
        ensures
            r == self.find(id@),
    {
        match find_named(&self.defs, id) {
            Some(k) => Some(ItemSlot(k as u16)),
            None => None,
        }
    }

    /// The item is a tool with this tag.
    pub open spec fn has_tool_tag(&self, item: Option<ItemSlot>, tag: Seq<char>) -> bool {
        match item {
            None => false,
            Some(s) => s.0 < self.defs@.len() && has_text(self.defs@[s.0 as int].tool_tags@, tag),
        }
    }

    pub fn tool_has_tag(&self, item: Option<ItemSlot>, tag: &String) -> (r: bool)
        ensures
            r == self.has_tool_tag(item, tag@),
    {
        match item {
            None => false,
            Some(s) => (s.0 as usize) < self.defs.len() && contains_text(
                &self.defs[s.0 as usize].tool_tags,
                tag,
            ),
        }
    }
}

/// An item id stands for the first item that has it, and for none exactly if
/// no item has it.
pub proof fn law_items_are_found_by_id(reg: &ItemRegistry, id: Seq<char>)
    requires
        reg.valid(),
    ensures
        reg.find(id) is None <==> forall|k: int|
            0 <= k < reg.defs@.len() ==> (#[trigger] reg.defs@[k]).id@ != id,
        reg.find(id) is Some ==> {
            let slot = (reg.find(id)->0).0 as int;
            &&& slot < reg.defs@.len() && reg.defs@[slot].id@ == id
            &&& forall|k: int| 0 <= k < slot ==> (#[trigger] reg.defs@[k]).id@ != id
        },
{
    lemma_position(reg.defs@, id, 0);
    assert forall|k: int| 0 <= k < reg.defs@.len() implies (#[trigger] reg.defs@[k]).name()
        == reg.defs@[k].id@ by {}
}

/// An item serves as a tool exactly if it is registered and lists the use;
/// empty hands never do.
pub proof fn law_tools_list_their_uses(reg: &ItemRegistry, item: ItemSlot, tag: Seq<char>)
    ensures
        !reg.has_tool_tag(None, tag),
        reg.has_tool_tag(Some(item), tag) <==> item.0 < reg.defs@.len() && exists|i: int|
            0 <= i < reg.defs@[item.0 as int].tool_tags@.len()
                && (#[trigger] reg.defs@[item.0 as int].tool_tags@[i])@ == tag,
{
}

} // verus!
