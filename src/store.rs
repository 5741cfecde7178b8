use vstd::prelude::*;
use std::collections::HashMap;
use crate::linked_item::LinkedItem;

verus! {

broadcast use vstd::std_specs::hash::group_hash_axioms;

/// A key-value store of list nodes, addressed by a list key and a slot
/// (`None` for the head of the list, `Some(item)` for an item).
pub trait LinkStore: Sized {
    /// The nodes held, by address.
    spec fn slots(&self) -> Map<(u64, Option<u32>), LinkedItem<u32>>;

    /// The node at an address, if any.
    fn get(&self, key: u64, item: Option<u32>) -> (r: Option<LinkedItem<u32>>)
        ensures
            r == (if self.slots().contains_key((key, item)) {
                Some(self.slots()[(key, item)])
            } else {
                None
            }),
    ;

    /// Stores `node` at an address, replacing what was there.
    fn insert(&mut self, key: u64, item: Option<u32>, node: LinkedItem<u32>)
        ensures
            final(self).slots() == old(self).slots().insert((key, item), node),
    ;

    /// Removes the node at an address and hands it back.
    fn take(&mut self, key: u64, item: Option<u32>) -> (r: Option<LinkedItem<u32>>)
        ensures
            r == (if old(self).slots().contains_key((key, item)) {
                Some(old(self).slots()[(key, item)])
            } else {
                None
            }),
            final(self).slots() == old(self).slots().remove((key, item)),
    ;

    /// Whether a node is stored at an address.
    fn has(&self, key: u64, item: Option<u32>) -> (r: bool)
        ensures
            r == self.slots().contains_key((key, item)),
    ;
}

/// Width of the item part of an address in `MemoryStore`.
pub const SLOT_SPAN: u128 = 0x2_0000_0000;

/// The number under which `MemoryStore` keeps slot `item` of `key`.
pub open spec fn slot_code(key: u64, item: Option<u32>) -> u128 {
    (key as int * SLOT_SPAN as int + match item {
        None => 0int,
        Some(x) => x as int + 1,
    }) as u128
}

proof fn lemma_slot_injective()
    ensures
        forall|k1: u64, i1: Option<u32>, k2: u64, i2: Option<u32>|
            #[trigger] slot_code(k1, i1) == #[trigger] slot_code(k2, i2) ==> k1 == k2 && i1 == i2,
{
    assert forall|k1: u64, i1: Option<u32>, k2: u64, i2: Option<u32>|
        #[trigger] slot_code(k1, i1) == #[trigger] slot_code(k2, i2) implies k1 == k2 && i1
        == i2 by {
        let c1: int = match i1 {
            None => 0int,
            Some(x) => x as int + 1,
        };
        let c2: int = match i2 {
            None => 0int,
            Some(x) => x as int + 1,
        };
        assert(k1 as int * SLOT_SPAN as int + c1 == k2 as int * SLOT_SPAN as int + c2);
        if k1 < k2 {
            assert(k1 as int * SLOT_SPAN as int + SLOT_SPAN as int <= k2 as int
                * SLOT_SPAN as int);
        } else if k2 < k1 {
            assert(k2 as int * SLOT_SPAN as int + SLOT_SPAN as int <= k1 as int
                * SLOT_SPAN as int);
        }
    }
}

fn slot(key: u64, item: Option<u32>) -> (r: u128)
    ensures
        r == slot_code(key, item),
{
    let code: u128 = match item {
        None => 0,
        Some(x) => x as u128 + 1,
    };
    key as u128 * SLOT_SPAN + code
}

/// A store held in memory, in a hash map keyed by the number of each address.
pub struct MemoryStore {
    nodes: HashMap<u128, LinkedItem<u32>>,
}

impl MemoryStore {
    /// A store that holds nothing.
    pub fn new() -> (r: Self)
        ensures
            r.slots() == Map::<(u64, Option<u32>), LinkedItem<u32>>::empty(),
    {
        let r = MemoryStore { nodes: HashMap::new() };
        assert(r.slots() =~= Map::<(u64, Option<u32>), LinkedItem<u32>>::empty());
        r
    }
}

impl LinkStore for MemoryStore {
    closed spec fn slots(&self) -> Map<(u64, Option<u32>), LinkedItem<u32>> {
        Map::new(
            |a: (u64, Option<u32>)| self.nodes@.contains_key(slot_code(a.0, a.1)),
            |a: (u64, Option<u32>)| self.nodes@[slot_code(a.0, a.1)],
        )
    }

    fn get(&self, key: u64, item: Option<u32>) -> (r: Option<LinkedItem<u32>>) {
        let code = slot(key, item);
        match self.nodes.get(&code) {
            Some(n) => Some(*n),
            None => None,
        }
    }

    fn insert(&mut self, key: u64, item: Option<u32>, node: LinkedItem<u32>) {
        let code = slot(key, item);
        proof {
            lemma_slot_injective();
        }
        self.nodes.insert(code, node);
        assert(self.slots() =~= old(self).slots().insert((key, item), node));
    }

    fn take(&mut self, key: u64, item: Option<u32>) -> (r: Option<LinkedItem<u32>>) {
        let code = slot(key, item);
        proof {
            lemma_slot_injective();
        }
        let r = self.nodes.remove(&code);
        assert(self.slots() =~= old(self).slots().remove((key, item)));
        r
    }

    fn has(&self, key: u64, item: Option<u32>) -> (r: bool) {
        let code = slot(key, item);
        self.nodes.contains_key(&code)
    }
}

} // verus!
