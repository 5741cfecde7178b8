use vstd::prelude::*;
use std::collections::HashMap;
use crate::dna::{combine, combined};
use crate::linked_item::{head_of, lemma_store_layout, node_at, LinkedItem, LinkedList};
use crate::store::MemoryStore;

verus! {

broadcast use vstd::std_specs::hash::group_hash_axioms;

/// Identifies an account.
pub type AccountId = u64;

/// Identifies a kitty; ids are handed out in increasing order.
pub type KittyIndex = u32;

/// An amount of money.
pub type Balance = u64;

/// The largest kitty id; the counter never hands it out.
pub const MAX_KITTY_INDEX: u32 = 0xffff_ffff;

/// A kitty: its genome.
#[derive(Clone, Copy, Debug, PartialEq, Eq)]
pub struct Kitty(pub [u8; 16]);

/// A link of an owner's list of kitties.
pub type KittyLinkedItem = LinkedItem<KittyIndex>;

/// Why an operation was refused. A refused operation changes nothing.
#[derive(Clone, Copy, Debug, PartialEq, Eq, Structural)]
pub enum KittyError {
    /// The id counter is at its largest value.
    CounterOverflow,
    /// No kitty has the given id.
    NotFound,
    /// Breeding was asked of one kitty with itself.
    IdenticalParents,
    /// The caller does not own the kitty.
    NotOwner,
    /// The kitty has no asking price.
    NotForSale,
    /// The offer is below the asking price.
    PriceTooLow,
    /// The payment for a sale did not go through.
    TransferFailed,
}

/// The ownership index: for every account, the list of the kitties it
/// holds, in the order in which they came to it.
pub struct OwnedKitties {
    list: LinkedList<MemoryStore>,
}

impl OwnedKitties {
    pub closed spec fn wf(&self) -> bool {
        self.list.wf()
    }

    /// The kitties held by `account`, oldest first.
    pub closed spec fn kitties_of(&self, account: AccountId) -> Seq<KittyIndex> {
        self.list.members(account)
    }

    /// What the store holds at slot `item` of the list of `account`.
    pub closed spec fn stored(&self, account: AccountId, item: Option<KittyIndex>) -> Option<
        KittyLinkedItem,
    > {
        self.list.stored(account, item)
    }

    /// An index in which no account holds anything.
    pub fn new() -> (r: Self)
        ensures
            r.wf(),
            forall|a: AccountId| r.kitties_of(a) == Seq::<KittyIndex>::empty(),
    {
        OwnedKitties { list: LinkedList::new(MemoryStore::new()) }
    }

    /// The link stored at slot `item` of the list of `account`, if any.
    pub fn get(&self, account: AccountId, item: Option<KittyIndex>) -> (r: Option<KittyLinkedItem>)
        ensures
            r == self.stored(account, item),
    {
        self.list.get(account, item)
    }

    /// Whether `account` holds `kitty_id`.
    pub fn contains(&self, account: AccountId, kitty_id: KittyIndex) -> (r: bool)
        requires
            self.wf(),
        ensures
            r == self.kitties_of(account).contains(kitty_id),
    {
        self.list.contains(account, kitty_id)
    }

    /// Adds `kitty_id` as the newest kitty of `account`.
    pub fn append(&mut self, account: AccountId, kitty_id: KittyIndex)
        requires
            old(self).wf(),
            !old(self).kitties_of(account).contains(kitty_id),
        ensures
            final(self).wf(),
            final(self).kitties_of(account) == old(self).kitties_of(account).push(kitty_id),
            forall|a: AccountId|
                a != account ==> #[trigger] final(self).kitties_of(a) == old(self).kitties_of(a),
            forall|x: KittyIndex|
                #[trigger] final(self).kitties_of(account).contains(x) <==> old(self).kitties_of(
                    account,
                ).contains(x) || x == kitty_id,
    {
        self.list.append(account, kitty_id);
    }

    /// Takes `kitty_id` out of the list of `account`; nothing changes where
    /// `account` does not hold it.
    pub fn remove(&mut self, account: AccountId, kitty_id: KittyIndex)
        requires
            old(self).wf(),
        ensures
            final(self).wf(),
            old(self).kitties_of(account).contains(kitty_id) ==> final(self).kitties_of(account)
                == old(self).kitties_of(account).remove(
                old(self).kitties_of(account).index_of(kitty_id),
            ),
            !old(self).kitties_of(account).contains(kitty_id) ==> final(self).kitties_of(account)
                == old(self).kitties_of(account),
            !old(self).kitties_of(account).contains(kitty_id) ==> forall|
                a: AccountId,
                i: Option<KittyIndex>,
            | #[trigger] final(self).stored(a, i) == old(self).stored(a, i),
            forall|a: AccountId|
                a != account ==> #[trigger] final(self).kitties_of(a) == old(self).kitties_of(a),
            forall|x: KittyIndex|
                #[trigger] final(self).kitties_of(account).contains(x) <==> old(self).kitties_of(
                    account,
                ).contains(x) && x != kitty_id,
    {
        self.list.remove(account, kitty_id);
    }
}

/// The kitty registry: the kitties, the id counter, who owns what and
/// what is for sale at which price.
pub struct Module {
    kitties: HashMap<KittyIndex, Kitty>,
    kitties_count: KittyIndex,
    owned_kitties: OwnedKitties,
    kitty_owners: HashMap<KittyIndex, AccountId>,
    kitty_prices: HashMap<KittyIndex, Balance>,
}

impl Module {
    /// The kitties by id.
    pub closed spec fn kitty_map(&self) -> Map<KittyIndex, Kitty> {
        self.kitties@
    }

    /// The next id to hand out.
    pub closed spec fn count(&self) -> KittyIndex {
        self.kitties_count
    }

    /// The owner of each kitty.
    pub closed spec fn owner_map(&self) -> Map<KittyIndex, AccountId> {
        self.kitty_owners@
    }

    /// The asking price of each kitty that is for sale.
    pub closed spec fn price_map(&self) -> Map<KittyIndex, Balance> {
        self.kitty_prices@
    }

    /// The kitties that the ownership index lists under `account`.
    pub closed spec fn kitties_of(&self, account: AccountId) -> Seq<KittyIndex> {
        self.owned_kitties.kitties_of(account)
    }

    /// What the ownership index stores at slot `item` of `account`'s list.
    pub closed spec fn owned_slot(&self, account: AccountId, item: Option<KittyIndex>) -> Option<
        KittyLinkedItem,
    > {
        self.owned_kitties.stored(account, item)
    }

    /// Whether the ownership index lists `kitty_id` under `account`.
    pub open spec fn owns(&self, account: AccountId, kitty_id: KittyIndex) -> bool {
        self.kitties_of(account).contains(kitty_id)
    }

    /// The ownership index on its own is well formed.
    pub closed spec fn index_wf(&self) -> bool {
        self.owned_kitties.wf()
    }

    /// Kitties exist exactly below the counter, each has exactly one owner,
    /// and the ownership index agrees with the owner map.
    pub closed spec fn wf(&self) -> bool {
        &&& self.owned_kitties.wf()
        &&& forall|id: KittyIndex|
            #[trigger] self.kitties@.contains_key(id) <==> id < self.kitties_count
        &&& forall|id: KittyIndex|
            #[trigger] self.kitty_owners@.contains_key(id) <==> id < self.kitties_count
        &&& forall|a: AccountId, id: KittyIndex|
            #[trigger] self.owned_kitties.kitties_of(a).contains(id) <==> (
            self.kitty_owners@.contains_key(id) && self.kitty_owners@[id] == a)
    }

    /// A registry without kitties.
    pub fn new() -> (r: Self)
        ensures
            r.wf(),
            r.index_wf(),
            r.count() == 0,
            r.kitty_map() == Map::<KittyIndex, Kitty>::empty(),
            r.owner_map() == Map::<KittyIndex, AccountId>::empty(),
            r.price_map() == Map::<KittyIndex, Balance>::empty(),
            forall|a: AccountId| r.kitties_of(a) == Seq::<KittyIndex>::empty(),
    {
        Module {
            kitties: HashMap::new(),
            kitties_count: 0,
            owned_kitties: OwnedKitties::new(),
            kitty_owners: HashMap::new(),
            kitty_prices: HashMap::new(),
        }
    }

    /// The kitty with id `kitty_id`, if any.
    pub fn kitty(&self, kitty_id: KittyIndex) -> (r: Option<Kitty>)
        ensures
            r == (if self.kitty_map().contains_key(kitty_id) {
                Some(self.kitty_map()[kitty_id])
            } else {
                None
            }),
    {
        match self.kitties.get(&kitty_id) {
            Some(k) => Some(*k),
            None => None,
        }
    }

    /// The next id to hand out, which is also the number of kitties.
    pub fn kitties_count(&self) -> (r: KittyIndex)
        ensures
            r == self.count(),
    {
        self.kitties_count
    }

    /// The owner of `kitty_id`, if it exists.
    pub fn kitty_owner(&self, kitty_id: KittyIndex) -> (r: Option<AccountId>)
        ensures
            r == (if self.owner_map().contains_key(kitty_id) {
                Some(self.owner_map()[kitty_id])
            } else {
                None
            }),
    {
        match self.kitty_owners.get(&kitty_id) {
            Some(a) => Some(*a),
            None => None,
        }
    }

    /// The asking price of `kitty_id`, if it is for sale.
    pub fn kitty_price(&self, kitty_id: KittyIndex) -> (r: Option<Balance>)
        ensures
            r == (if self.price_map().contains_key(kitty_id) {
                Some(self.price_map()[kitty_id])
            } else {
                None
            }),
    {
        match self.kitty_prices.get(&kitty_id) {
            Some(p) => Some(*p),
            None => None,
        }
    }

    /// Whether the ownership index lists `kitty_id` under `account`.
    pub fn is_owned_by(&self, account: AccountId, kitty_id: KittyIndex) -> (r: bool)
        requires
            self.wf(),
        ensures
            r == self.owns(account, kitty_id),
    {
        self.owned_kitties.contains(account, kitty_id)
    }

    /// The link stored at slot `item` of the list of `account`, if any.
    pub fn owned_kitties(&self, account: AccountId, item: Option<KittyIndex>) -> (r: Option<
        KittyLinkedItem,
    >)
        ensures
            r == self.owned_slot(account, item),
    {
        self.owned_kitties.get(account, item)
    }

    /// The id that the next kitty gets, unless the counter is exhausted.
    pub fn next_kitty_id(&self) -> (r: Result<KittyIndex, KittyError>)
        ensures
            r == (if self.count() == MAX_KITTY_INDEX {
                Err::<KittyIndex, KittyError>(KittyError::CounterOverflow)
            } else {
                Ok(self.count())
            }),
    {
        let kitty_id = self.kitties_count;
        if kitty_id == MAX_KITTY_INDEX {
            return Err(KittyError::CounterOverflow);
        }
        Ok(kitty_id)
    }

    /// Lists `kitty_id` under `owner` in the ownership index alone.
    pub fn insert_owned_kitty(&mut self, owner: AccountId, kitty_id: KittyIndex)
        requires
            old(self).index_wf(),
            !old(self).owns(owner, kitty_id),
        ensures
            final(self).index_wf(),
            final(self).kitties_of(owner) == old(self).kitties_of(owner).push(kitty_id),
            forall|a: AccountId|
                a != owner ==> #[trigger] final(self).kitties_of(a) == old(self).kitties_of(a),
            final(self).kitty_map() == old(self).kitty_map(),
            final(self).count() == old(self).count(),
            final(self).owner_map() == old(self).owner_map(),
            final(self).price_map() == old(self).price_map(),
    {
        self.owned_kitties.append(owner, kitty_id);
    }

    fn insert_kitty(&mut self, owner: AccountId, kitty_id: KittyIndex, kitty: Kitty)
        requires
            old(self).wf(),
            kitty_id == old(self).count(),
            kitty_id < MAX_KITTY_INDEX,
        ensures
            final(self).wf(),
            final(self).kitty_map() == old(self).kitty_map().insert(kitty_id, kitty),
            final(self).count() == kitty_id + 1,
            final(self).owner_map() == old(self).owner_map().insert(kitty_id, owner),
            final(self).price_map() == old(self).price_map(),
            final(self).kitties_of(owner) == old(self).kitties_of(owner).push(kitty_id),
            forall|a: AccountId|
                a != owner ==> #[trigger] final(self).kitties_of(a) == old(self).kitties_of(a),
    {
        proof {
            if self.owned_kitties.kitties_of(owner).contains(kitty_id) {
                assert(self.kitty_owners@.contains_key(kitty_id));
            }
        }
        self.kitties.insert(kitty_id, kitty);
        self.kitties_count = kitty_id + 1;
        self.kitty_owners.insert(kitty_id, owner);
        self.insert_owned_kitty(owner, kitty_id);
        proof {
            assert forall|a: AccountId, id: KittyIndex|
                #[trigger] self.owned_kitties.kitties_of(a).contains(id) <==> (
                self.kitty_owners@.contains_key(id) && self.kitty_owners@[id] == a) by {
                if a != owner {
                    assert(self.kitties_of(a) == old(self).kitties_of(a));
                    if id == kitty_id {
                        assert(!old(self).kitty_owners@.contains_key(id));
                    }
                } else {
                    assert(self.kitties_of(a) == old(self).kitties_of(a).push(kitty_id));
                    assert(self.kitties_of(a).contains(id) <==> old(self).kitties_of(a).contains(id)
                        || id == kitty_id) by {
                        let s0 = old(self).kitties_of(a);
                        if s0.contains(id) {
                            let j = choose|j: int| 0 <= j < s0.len() && s0[j] == id;
                            assert(self.kitties_of(a)[j] == id);
                        }
                        if self.kitties_of(a).contains(id) && id != kitty_id {
                            let j = choose|j: int| 0 <= j < s0.len() + 1 && self.kitties_of(a)[j] == id;
                            assert(s0[j] == id);
                        }
                        assert(self.kitties_of(a)[s0.len() as int] == kitty_id);
                    }
                    assert(old(self).owned_kitties.kitties_of(a).contains(id) <==> (
                    old(self).kitty_owners@.contains_key(id) && old(self).kitty_owners@[id] == a));
                }
            }
        }
    }
    fn move_ownership(&mut self, from: AccountId, to: AccountId, kitty_id: KittyIndex)
        requires
            old(self).wf(),
            old(self).owns(from, kitty_id),
        ensures
            final(self).wf(),
            final(self).kitty_map() == old(self).kitty_map(),
            final(self).count() == old(self).count(),
            final(self).owner_map() == old(self).owner_map().insert(kitty_id, to),
            final(self).price_map() == old(self).price_map(),
            moved(*old(self), *final(self), from, to, kitty_id),
    {
        let ghost s_from = self.kitties_of(from);
        proof {
            assert(self.kitty_owners@[kitty_id] == from);
            if to != from && self.kitties_of(to).contains(kitty_id) {
                assert(self.kitty_owners@[kitty_id] == to);
            }
        }
        self.owned_kitties.remove(from, kitty_id);
        proof {
            if to == from {
                assert(!self.owned_kitties.kitties_of(to).contains(kitty_id));
            } else {
                assert(self.owned_kitties.kitties_of(to) == old(self).owned_kitties.kitties_of(to));
            }
        }
        self.owned_kitties.append(to, kitty_id);
        self.kitty_owners.insert(kitty_id, to);
        proof {
            assert forall|a: AccountId, id: KittyIndex|
                #[trigger] self.owned_kitties.kitties_of(a).contains(id) <==> (
                self.kitty_owners@.contains_key(id) && self.kitty_owners@[id] == a) by {
                assert(old(self).owned_kitties.kitties_of(a).contains(id) <==> (
                old(self).kitty_owners@.contains_key(id) && old(self).kitty_owners@[id] == a));
                if a != to && a != from {
                    assert(self.owned_kitties.kitties_of(a) == old(self).owned_kitties.kitties_of(a));
                }
            }
        }
    }

    /// Creates a kitty with genome `dna` for `sender` and returns its id.
    pub fn create(&mut self, sender: AccountId, dna: [u8; 16]) -> (r: Result<
        KittyIndex,
        KittyError,
    >)
        requires
            old(self).wf(),
        ensures
            final(self).wf(),
            old(self).count() == MAX_KITTY_INDEX ==> r == Err::<KittyIndex, KittyError>(
                KittyError::CounterOverflow,
            ) && *final(self) == *old(self),
            old(self).count() != MAX_KITTY_INDEX ==> r == Ok::<KittyIndex, KittyError>(
                old(self).count(),
            ) && created(*old(self), *final(self), sender, Kitty(dna)),
    {
        let kitty_id = match self.next_kitty_id() {
            Ok(id) => id,
            Err(e) => return Err(e),
        };
        self.insert_kitty(sender, kitty_id, Kitty(dna));
        Ok(kitty_id)
    }

    /// Why breeding `kitty_id_1` with `kitty_id_2` is refused, if it is.
    pub open spec fn breed_error(&self, kitty_id_1: KittyIndex, kitty_id_2: KittyIndex) -> Option<
        KittyError,
    > {
        if !self.kitty_map().contains_key(kitty_id_1) || !self.kitty_map().contains_key(
            kitty_id_2,
        ) {
            Some(KittyError::NotFound)
        } else if kitty_id_1 == kitty_id_2 {
            Some(KittyError::IdenticalParents)
        } else if self.count() == MAX_KITTY_INDEX {
            Some(KittyError::CounterOverflow)
        } else {
            None
        }
    }

    /// Breeds two kitties into a new one for `sender`, whose genome takes
    /// each bit from the first parent where `selector` has it set and from
    /// the second elsewhere. Returns the new kitty's id.
    pub fn breed(
        &mut self,
        sender: AccountId,
        kitty_id_1: KittyIndex,
        kitty_id_2: KittyIndex,
        selector: [u8; 16],
    ) -> (r: Result<KittyIndex, KittyError>)
        requires
            old(self).wf(),
        ensures
            final(self).wf(),
            match old(self).breed_error(kitty_id_1, kitty_id_2) {
                Some(e) => r == Err::<KittyIndex, KittyError>(e) && *final(self) == *old(self),
                None => {
                    &&& r == Ok::<KittyIndex, KittyError>(old(self).count())
                    &&& created(*old(self), *final(self), sender, final(self).kitty_map()[old(self).count()])
                    &&& final(self).kitty_map()[old(self).count()].0@ == combined(
                        old(self).kitty_map()[kitty_id_1].0@,
                        old(self).kitty_map()[kitty_id_2].0@,
                        selector@,
                    )
                },
            },
    {
        let kitty1 = self.kitty(kitty_id_1);
        let kitty2 = self.kitty(kitty_id_2);
        let (dna1, dna2) = match (kitty1, kitty2) {
            (Some(k1), Some(k2)) => (k1.0, k2.0),
            _ => return Err(KittyError::NotFound),
        };
        if kitty_id_1 == kitty_id_2 {
            return Err(KittyError::IdenticalParents);
        }
        let new_kitty_id = match self.next_kitty_id() {
            Ok(id) => id,
            Err(e) => return Err(e),
        };
        let new_dna = combine(&dna1, &dna2, &selector);
        self.insert_kitty(sender, new_kitty_id, Kitty(new_dna));
        Ok(new_kitty_id)
    }

    /// Why `sender` may not hand `kitty_id` over, if it may not.
    pub open spec fn transfer_error(&self, sender: AccountId, kitty_id: KittyIndex) -> Option<
        KittyError,
    > {
        if !self.kitty_map().contains_key(kitty_id) {
            Some(KittyError::NotFound)
        } else if !self.owns(sender, kitty_id) {
            Some(KittyError::NotOwner)
        } else {
            None
        }
    }

    /// Hands `kitty_id` from `sender` over to `recipient`.
    pub fn transfer(&mut self, sender: AccountId, recipient: AccountId, kitty_id: KittyIndex) -> (r:
        Result<(), KittyError>)
        requires
            old(self).wf(),
        ensures
            final(self).wf(),
            match old(self).transfer_error(sender, kitty_id) {
                Some(e) => r == Err::<(), KittyError>(e) && *final(self) == *old(self),
                None => {
                    &&& r == Ok::<(), KittyError>(())
                    &&& final(self).kitty_map() == old(self).kitty_map()
                    &&& final(self).count() == old(self).count()
                    &&& final(self).owner_map() == old(self).owner_map().insert(kitty_id, recipient)
                    &&& final(self).price_map() == old(self).price_map()
                    &&& moved(*old(self), *final(self), sender, recipient, kitty_id)
                },
            },
    {
        if !self.kitties.contains_key(&kitty_id) {
            return Err(KittyError::NotFound);
        }
        if !self.owned_kitties.contains(sender, kitty_id) {
            return Err(KittyError::NotOwner);
        }
        self.move_ownership(sender, recipient, kitty_id);
        Ok(())
    }

    /// Puts `kitty_id` up for sale at `price`, or takes it off sale where
    /// `price` is `None`. Only its owner may do so.
    pub fn ask(&mut self, sender: AccountId, kitty_id: KittyIndex, price: Option<Balance>) -> (r:
        Result<(), KittyError>)
        requires
            old(self).wf(),
        ensures
            final(self).wf(),
            !old(self).owns(sender, kitty_id) ==> r == Err::<(), KittyError>(KittyError::NotOwner)
                && *final(self) == *old(self),
            old(self).owns(sender, kitty_id) ==> {
                &&& r == Ok::<(), KittyError>(())
                &&& final(self).price_map() == match price {
                    Some(p) => old(self).price_map().insert(kitty_id, p),
                    None => old(self).price_map().remove(kitty_id),
                }
                &&& final(self).kitty_map() == old(self).kitty_map()
                &&& final(self).count() == old(self).count()
                &&& final(self).owner_map() == old(self).owner_map()
                &&& same_index(*old(self), *final(self))
            },
    {
        if !self.owned_kitties.contains(sender, kitty_id) {
            return Err(KittyError::NotOwner);
        }
        match price {
            Some(p) => {
                self.kitty_prices.insert(kitty_id, p);
            },
            None => {
                self.kitty_prices.remove(&kitty_id);
            },
        }
        Ok(())
    }

    /// Why an offer of `price` for `kitty_id` is refused, if it is.
    pub open spec fn buy_error(&self, kitty_id: KittyIndex, price: Balance) -> Option<KittyError> {
        if !self.owner_map().contains_key(kitty_id) {
            Some(KittyError::NotFound)
        } else if !self.price_map().contains_key(kitty_id) {
            Some(KittyError::NotForSale)
        } else if price < self.price_map()[kitty_id] {
            Some(KittyError::PriceTooLow)
        } else {
            None
        }
    }

    /// Checks an offer of `price` for `kitty_id`. Where it is acceptable,
    /// returns the seller and the asking price: the payment that the buyer
    /// must make to the seller before `buy` completes the sale.
    pub fn buy_terms(&self, kitty_id: KittyIndex, price: Balance) -> (r: Result<
        (AccountId, Balance),
        KittyError,
    >)
        ensures
            match self.buy_error(kitty_id, price) {
                Some(e) => r == Err::<(AccountId, Balance), KittyError>(e),
                None => r == Ok::<(AccountId, Balance), KittyError>(
                    (self.owner_map()[kitty_id], self.price_map()[kitty_id]),
                ),
            },
    {
        let owner = match self.kitty_owners.get(&kitty_id) {
            Some(o) => *o,
            None => return Err(KittyError::NotFound),
        };
        let kitty_price = match self.kitty_prices.get(&kitty_id) {
            Some(p) => *p,
            None => return Err(KittyError::NotForSale),
        };
        if price < kitty_price {
            return Err(KittyError::PriceTooLow);
        }
        Ok((owner, kitty_price))
    }

    /// Completes the purchase of `kitty_id` by `sender` for an offer of
    /// `price`. `paid` tells whether the payment of the asking price from
    /// `sender` to the seller, as `buy_terms` gives it, went through. On
    /// success the kitty goes to `sender`, leaves the market, and the
    /// seller and the asking price are returned.
    pub fn buy(&mut self, sender: AccountId, kitty_id: KittyIndex, price: Balance, paid: bool) -> (r:
        Result<(AccountId, Balance), KittyError>)
        requires
            old(self).wf(),
        ensures
            final(self).wf(),
            match old(self).buy_error(kitty_id, price) {
                Some(e) => r == Err::<(AccountId, Balance), KittyError>(e) && *final(self) == *old(
                    self,
                ),
                None => if !paid {
                    r == Err::<(AccountId, Balance), KittyError>(KittyError::TransferFailed)
                        && *final(self) == *old(self)
                } else {
                    &&& r == Ok::<(AccountId, Balance), KittyError>(
                        (old(self).owner_map()[kitty_id], old(self).price_map()[kitty_id]),
                    )
                    &&& final(self).kitty_map() == old(self).kitty_map()
                    &&& final(self).count() == old(self).count()
                    &&& final(self).owner_map() == old(self).owner_map().insert(kitty_id, sender)
                    &&& final(self).price_map() == old(self).price_map().remove(kitty_id)
                    &&& moved(
                        *old(self),
                        *final(self),
                        old(self).owner_map()[kitty_id],
                        sender,
                        kitty_id,
                    )
                },
            },
    {
        let (owner, kitty_price) = match self.buy_terms(kitty_id, price) {
            Ok(t) => t,
            Err(e) => return Err(e),
        };
        if !paid {
            return Err(KittyError::TransferFailed);
        }
        self.kitty_prices.remove(&kitty_id);
        proof {
            assert(self.owned_kitties.kitties_of(owner).contains(kitty_id));
        }
        self.move_ownership(owner, sender, kitty_id);
        Ok((owner, kitty_price))
    }

}

/// The ownership index of `post` is that of `pre`, slot for slot.
pub open spec fn same_index(pre: Module, post: Module) -> bool {
    &&& forall|a: AccountId| #[trigger] post.kitties_of(a) == pre.kitties_of(a)
    &&& forall|a: AccountId, i: Option<KittyIndex>|
        #[trigger] post.owned_slot(a, i) == pre.owned_slot(a, i)
}

/// `post` is `pre` with `kitty` registered under the next id and listed
/// last among the kitties of `owner`; nothing else changed.
pub open spec fn created(pre: Module, post: Module, owner: AccountId, kitty: Kitty) -> bool {
    &&& post.count() == pre.count() + 1
    &&& post.kitty_map() == pre.kitty_map().insert(pre.count(), kitty)
    &&& post.owner_map() == pre.owner_map().insert(pre.count(), owner)
    &&& post.price_map() == pre.price_map()
    &&& post.kitties_of(owner) == pre.kitties_of(owner).push(pre.count())
    &&& forall|a: AccountId| a != owner ==> #[trigger] post.kitties_of(a) == pre.kitties_of(a)
}

/// In the ownership index of `post`, `kitty_id` has left the list of
/// `from` and stands last in the list of `to`; the other lists are as in
/// `pre`.
pub open spec fn moved(pre: Module, post: Module, from: AccountId, to: AccountId, kitty_id: KittyIndex) -> bool {
    let rest = pre.kitties_of(from).remove(pre.kitties_of(from).index_of(kitty_id));
    &&& from != to ==> post.kitties_of(from) == rest
    &&& post.kitties_of(to) == if from == to {
        rest
    } else {
        pre.kitties_of(to)
    }.push(kitty_id)
    &&& forall|a: AccountId| a != from && a != to ==> #[trigger] post.kitties_of(a) == pre.kitties_of(a)
}

/// How the list of `account` lies in the store of the ownership index.
pub proof fn lemma_index_layout(o: OwnedKitties, account: AccountId)
    requires
        o.wf(),
    ensures
        o.kitties_of(account).no_duplicates(),
        (match o.stored(account, None) {
            Some(n) => n,
            None => LinkedItem { prev: None, next: None },
        }) == head_of(o.kitties_of(account)),
        forall|i: int|
            0 <= i < o.kitties_of(account).len() ==> #[trigger] o.stored(
                account,
                Some(o.kitties_of(account)[i]),
            ) == Some(node_at(o.kitties_of(account), i)),
        forall|x: KittyIndex|
            #[trigger] o.stored(account, Some(x)).is_some() <==> o.kitties_of(account).contains(x),
{
    lemma_store_layout(o.list, account);
}

/// A well-formed registry has a well-formed ownership index.
pub proof fn lemma_index_wf(m: Module)
    requires
        m.wf(),
    ensures
        m.index_wf(),
{
}

/// No kitty is listed under two owners at once.
pub proof fn lemma_exclusive_ownership(m: Module, a: AccountId, b: AccountId, kitty_id: KittyIndex)
    requires
        m.wf(),
        m.owns(a, kitty_id),
        m.owns(b, kitty_id),
    ensures
        a == b,
{
    assert(m.owned_kitties.kitties_of(a).contains(kitty_id));
    assert(m.owned_kitties.kitties_of(b).contains(kitty_id));
}

} // verus!
