use vstd::prelude::*;
use crate::store::LinkStore;

verus! {

/// One link of a list: the neighbours of an item, or, for the head
/// sentinel, the last and the first item. `None` stands for the head.
#[derive(Clone, Copy, Debug, PartialEq, Eq)]
pub struct LinkedItem<Item> {
    pub prev: Option<Item>,
    pub next: Option<Item>,
}

/// The node that a slot holds when nothing was ever written there.
pub open spec fn empty_item() -> LinkedItem<u32> {
    LinkedItem { prev: None, next: None }
}

/// The node that the item at position `i` of `s` carries.
pub open spec fn node_at(s: Seq<u32>, i: int) -> LinkedItem<u32> {
    LinkedItem {
        prev: if i > 0 { Some(s[i - 1]) } else { None },
        next: if i + 1 < s.len() { Some(s[i + 1]) } else { None },
    }
}

/// The head sentinel of the list `s`: its last and its first item.
pub open spec fn head_of(s: Seq<u32>) -> LinkedItem<u32> {
    LinkedItem {
        prev: if s.len() > 0 { Some(s.last()) } else { None },
        next: if s.len() > 0 { Some(s[0]) } else { None },
    }
}

/// Doubly linked lists of `u32` items, one per `u64` key, whose nodes live
/// as separate entries of a key-value store `S` addressed by `(key, slot)`.
/// The slot `None` holds the head sentinel of each list.
pub struct LinkedList<S: LinkStore> {
    store: S,
    lists: Ghost<Map<u64, Seq<u32>>>,
}

impl<S: LinkStore> LinkedList<S> {
    /// What the store holds at slot `item` of the list under `key`.
    pub closed spec fn stored(&self, key: u64, item: Option<u32>) -> Option<LinkedItem<u32>> {
        if self.store.slots().contains_key((key, item)) {
            Some(self.store.slots()[(key, item)])
        } else {
            None
        }
    }

    /// The node at a slot, or the empty node where nothing is stored.
    pub open spec fn read_spec(&self, key: u64, item: Option<u32>) -> LinkedItem<u32> {
        match self.stored(key, item) {
            Some(n) => n,
            None => empty_item(),
        }
    }

    /// The items of the list under `key`, first to last.
    pub closed spec fn members(&self, key: u64) -> Seq<u32> {
        if self.lists@.contains_key(key) {
            self.lists@[key]
        } else {
            Seq::empty()
        }
    }

    /// Every list is a closed cycle through its head, and the store holds
    /// nodes for the members of the lists and for nothing else.
    pub closed spec fn wf(&self) -> bool {
        &&& forall|key: u64, x: u32|
            #![trigger self.stored(key, Some(x))]
            #![trigger self.members(key).contains(x)]
            self.stored(key, Some(x)).is_some() <==> self.members(key).contains(x)
        &&& forall|key: u64| #[trigger] self.members(key).no_duplicates()
        &&& forall|key: u64| #[trigger] self.read_spec(key, None) == head_of(self.members(key))
        &&& forall|key: u64, i: int|
            0 <= i < self.members(key).len() ==> #[trigger] self.stored(
                key,
                Some(self.members(key)[i]),
            ) == Some(node_at(self.members(key), i))
    }

    /// The slot reached from the head after `steps` moves along `next`.
    pub open spec fn walk_next(&self, key: u64, steps: nat) -> Option<u32>
        decreases steps,
    {
        if steps == 0 {
            None
        } else {
            self.read_spec(key, self.walk_next(key, (steps - 1) as nat)).next
        }
    }

    /// The slot reached from the head after `steps` moves along `prev`.
    pub open spec fn walk_prev(&self, key: u64, steps: nat) -> Option<u32>
        decreases steps,
    {
        if steps == 0 {
            None
        } else {
            self.read_spec(key, self.walk_prev(key, (steps - 1) as nat)).prev
        }
    }

    /// The items that a walk along `next` from the head meets.
    pub open spec fn reachable(&self, key: u64) -> Set<u32> {
        Set::new(|x: u32| exists|k: nat| self.walk_next(key, k) == Some(x))
    }

    /// An empty store: every list is empty.
    pub fn new(store: S) -> (r: Self)
        requires
            store.slots() == Map::<(u64, Option<u32>), LinkedItem<u32>>::empty(),
        ensures
            r.wf(),
            forall|key: u64| r.members(key) == Seq::<u32>::empty(),
            forall|key: u64, item: Option<u32>| r.stored(key, item).is_none(),
    {
        let r = LinkedList { store, lists: Ghost(Map::empty()) };
        assert forall|key: u64| #[trigger] r.members(key).no_duplicates() by {}
        assert forall|key: u64| #[trigger] r.read_spec(key, None) == head_of(r.members(key)) by {}
        r
    }

    /// The node stored at slot `item` of the list under `key`, if any.
    pub fn get(&self, key: u64, item: Option<u32>) -> (r: Option<LinkedItem<u32>>)
        ensures
            r == self.stored(key, item),
    {
        self.store.get(key, item)
    }

    /// Whether `item` is a member of the list under `key`.
    pub fn contains(&self, key: u64, item: u32) -> (r: bool)
        requires
            self.wf(),
        ensures
            r == self.members(key).contains(item),
    {
        self.store.has(key, Some(item))
    }

    /// Adds `value` as the new last item of the list under `key`.
    pub fn append(&mut self, key: u64, value: u32)
        requires
            old(self).wf(),
            !old(self).members(key).contains(value),
        ensures
            final(self).wf(),
            final(self).members(key) == old(self).members(key).push(value),
            final(self).reachable(key) == old(self).reachable(key).insert(value),
            forall|x: u32|
                #[trigger] final(self).members(key).contains(x) <==> old(self).members(
                    key,
                ).contains(x) || x == value,
            forall|k: u64| k != key ==> #[trigger] final(self).members(k) == old(self).members(k),
            forall|k: u64, i: Option<u32>|
                k != key ==> #[trigger] final(self).stored(k, i) == old(self).stored(k, i),
    {
        let ghost s = self.members(key);
        let ghost t = s.push(value);
        self.lists = Ghost(self.lists@.insert(key, t));
        let head = self.read_head(key);
        assert(old(self).stored(key, None) == self.stored(key, None));
        assert(old(self).read_spec(key, None) == head_of(s));
        assert(head == head_of(s));
        let new_head = LinkedItem { prev: Some(value), next: head.next };
        self.write_head(key, new_head);
        let ghost st1 = *self;

        let prev = self.read(key, head.prev);
        proof {
            if s.len() > 0 {
                assert(old(self).stored(key, Some(s.last())) == Some(node_at(s, s.len() - 1)));
                assert(prev == node_at(s, s.len() - 1));
            } else {
                assert(prev == new_head);
            }
        }
        let new_prev = LinkedItem { prev: prev.prev, next: Some(value) };
        self.write(key, head.prev, new_prev);
        let ghost st2 = *self;

        let item = LinkedItem { prev: head.prev, next: None };
        self.write(key, Some(value), item);
        assert(self.stored(key, Some(value)) == Some(item));
        assert(self.stored(key, head.prev) == Some(new_prev));
        proof {
            if s.len() > 0 {
                assert(self.stored(key, None) == Some(new_head));
            }
        }

        proof {
            let n = s.len() as int;
            assert(s.no_duplicates());
            assert forall|k: u64, x: Option<u32>|
                !(k == key && (x == Some(value) || x == head.prev || x == None::<u32>)) implies
                #[trigger] self.stored(k, x) == old(self).stored(k, x) by {
                assert(self.stored(k, x) == st2.stored(k, x));
                assert(st2.stored(k, x) == st1.stored(k, x));
            }
            assert(self.members(key) == t);
            assert forall|k: u64| k != key implies #[trigger] self.members(k) == old(
                self,
            ).members(k) by {}
            assert(self.read_spec(key, None) == head_of(t)) by {
                if n > 0 {
                    assert(old(self).stored(key, Some(s[n - 1])) == Some(node_at(s, n - 1)));
                }
            }
            assert forall|i: int| 0 <= i < t.len() implies #[trigger] self.stored(
                key,
                Some(t[i]),
            ) == Some(node_at(t, i)) by {
                if i < n {
                    assert(old(self).stored(key, Some(s[i])) == Some(node_at(s, i)));
                    assert(s[i] != value);
                    if i == n - 1 {
                        assert(old(self).stored(key, Some(s[n - 1])) == Some(node_at(s, n - 1)));
                    } else {
                        assert(s[i] != s[n - 1]);
                        assert(Some(t[i]) != head.prev);
                        assert(self.stored(key, Some(t[i])) == old(self).stored(key, Some(s[i])));
                    }
                } else {
                    assert(t[i] == value);
                }
            }
            assert forall|k: u64, x: u32|
                self.stored(k, Some(x)).is_some() <==> self.members(k).contains(x) by {
                if k == key {
                    if x == value {
                        assert(t[n] == x);
                    } else if s.contains(x) {
                        let j = choose|j: int| 0 <= j < n && s[j] == x;
                        assert(t[j] == x);
                    } else if t.contains(x) {
                        let j = choose|j: int| 0 <= j < t.len() && t[j] == x;
                        assert(s[j] == x);
                    }
                    if n > 0 {
                        assert(s.contains(s[n - 1]));
                    }
                } else {
                    assert(self.stored(k, Some(x)) == old(self).stored(k, Some(x)));
                }
            }
            assert forall|k: u64| #[trigger] self.members(k).no_duplicates() by {
                if k == key {
                    assert forall|i: int, j: int|
                        0 <= i < t.len() && 0 <= j < t.len() && i != j implies t[i] != t[j] by {
                        if i == n {
                            assert(s.contains(t[j]));
                        } else if j == n {
                            assert(s.contains(t[i]));
                        }
                    }
                }
            }
            assert forall|k: u64| #[trigger] self.read_spec(k, None) == head_of(self.members(k)) by {
                if k != key {
                    assert(old(self).read_spec(k, None) == head_of(old(self).members(k)));
                }
            }
            assert forall|k: u64, i: int|
                0 <= i < self.members(k).len() implies #[trigger] self.stored(
                k,
                Some(self.members(k)[i]),
            ) == Some(node_at(self.members(k), i)) by {
                if k != key {
                    assert(old(self).stored(k, Some(old(self).members(k)[i])) == Some(
                        node_at(old(self).members(k), i),
                    ));
                }
            }
        }
        proof {
            lemma_reachable_is_members(*old(self), key);
            lemma_reachable_is_members(*self, key);
            assert forall|x: u32| t.contains(x) <==> s.contains(x) || x == value by {
                if s.contains(x) {
                    let j = choose|j: int| 0 <= j < s.len() && s[j] == x;
                    assert(t[j] == x);
                }
                if t.contains(x) {
                    let j = choose|j: int| 0 <= j < t.len() && t[j] == x;
                    if j < s.len() {
                        assert(s[j] == x);
                    }
                }
                assert(t[s.len() as int] == value);
            }
            assert(t.to_set() =~= s.to_set().insert(value));
        }
    }

    /// Removes `value` from wherever it stands in the list under `key`;
    /// nothing changes where it is not a member.
    pub fn remove(&mut self, key: u64, value: u32)
        requires
            old(self).wf(),
        ensures
            final(self).wf(),
            old(self).members(key).contains(value) ==> final(self).members(key) == old(
                self,
            ).members(key).remove(old(self).members(key).index_of(value)),
            !old(self).members(key).contains(value) ==> final(self).members(key) == old(
                self,
            ).members(key),
            final(self).reachable(key) == old(self).reachable(key).remove(value),
            forall|x: u32|
                #[trigger] final(self).members(key).contains(x) <==> old(self).members(
                    key,
                ).contains(x) && x != value,
            !old(self).members(key).contains(value) ==> forall|k: u64, i: Option<u32>|
                #[trigger] final(self).stored(k, i) == old(self).stored(k, i),
            forall|k: u64| k != key ==> #[trigger] final(self).members(k) == old(self).members(k),
            forall|k: u64, i: Option<u32>|
                k != key ==> #[trigger] final(self).stored(k, i) == old(self).stored(k, i),
    {
        let ghost s = self.members(key);
        let ghost idx = s.index_of(value);
        let ghost n = s.len() as int;
        proof {
            if s.contains(value) {
                assert(old(self).stored(key, Some(s[idx])) == Some(node_at(s, idx)));
            }
        }
        let taken = self.take(key, value);
        let ghost st_t = *self;
        if let Some(item) = taken {
            let ghost t = s.remove(idx);
            self.lists = Ghost(self.lists@.insert(key, t));
            let ghost st0 = *self;
            assert(st0.store.slots() == st_t.store.slots());
            assert(forall|k: u64, x: Option<u32>| #[trigger] st0.stored(k, x) == st_t.stored(k, x));
            proof {
                assert(s.no_duplicates());
                assert(item == node_at(s, idx));
                assert(old(self).read_spec(key, None) == head_of(s));
                if idx > 0 {
                    assert(old(self).stored(key, Some(s[idx - 1])) == Some(node_at(s, idx - 1)));
                }
                if idx + 1 < n {
                    assert(old(self).stored(key, Some(s[idx + 1])) == Some(node_at(s, idx + 1)));
                }
            }

            let prev = self.read(key, item.prev);
            let new_prev = LinkedItem { prev: prev.prev, next: item.next };
            self.write(key, item.prev, new_prev);
            let ghost st1 = *self;

            let next = self.read(key, item.next);
            let new_next = LinkedItem { prev: item.prev, next: next.next };
            self.write(key, item.next, new_next);

            proof {
                assert forall|k: u64, x: Option<u32>|
                    !(k == key && (x == Some(value) || x == item.prev || x == item.next))
                    implies #[trigger] self.stored(k, x) == old(self).stored(k, x) by {
                    assert(self.stored(k, x) == st1.stored(k, x));
                    assert(st1.stored(k, x) == st0.stored(k, x));
                    assert(st0.stored(k, x) == st_t.stored(k, x));
                }
                assert(st_t.stored(key, Some(value)) == None::<LinkedItem<u32>>);
                assert(Some(value) != item.prev && Some(value) != item.next);
                assert(self.stored(key, Some(value)) == None::<LinkedItem<u32>>);
                assert(self.members(key) == t);
                assert forall|i: int| 0 <= i < t.len() implies #[trigger] self.stored(
                    key,
                    Some(t[i]),
                ) == Some(node_at(t, i)) by {
                    if i < idx {
                        assert(t[i] == s[i]);
                        assert(old(self).stored(key, Some(s[i])) == Some(node_at(s, i)));
                        if i + 1 < idx {
                            assert(s[i] != s[idx - 1]);
                        }
                        if idx + 1 < n {
                            assert(s[i] != s[idx + 1]);
                        }
                        assert(s[i] != value);
                    } else {
                        assert(t[i] == s[i + 1]);
                        assert(old(self).stored(key, Some(s[i + 1])) == Some(node_at(s, i + 1)));
                        if i > idx {
                            assert(s[i + 1] != s[idx + 1]);
                        }
                        if idx > 0 {
                            assert(s[i + 1] != s[idx - 1]);
                        }
                        assert(s[i + 1] != value);
                    }
                }
                assert(self.read_spec(key, None) == head_of(t)) by {
                    if n > 1 {
                        assert(old(self).stored(key, Some(s[n - 1])) == Some(node_at(s, n - 1)));
                    }
                }
                assert forall|k: u64, x: u32|
                    self.stored(k, Some(x)).is_some() <==> self.members(k).contains(x) by {
                    if k == key {
                        if x == value {
                            if t.contains(x) {
                                let j = choose|j: int| 0 <= j < t.len() && t[j] == x;
                                if j < idx {
                                    assert(s[j] == s[idx]);
                                } else {
                                    assert(s[j + 1] == s[idx]);
                                }
                            }
                        } else {
                            assert(self.stored(key, Some(x)).is_some() == old(self).stored(
                                key,
                                Some(x),
                            ).is_some()) by {
                                if Some(x) == item.next {
                                    assert(self.stored(key, item.next) == Some(new_next));
                                    assert(s.contains(s[idx + 1]));
                                } else if Some(x) == item.prev {
                                    assert(st1.stored(key, item.prev) == Some(new_prev));
                                    assert(self.stored(key, item.prev) == Some(new_prev));
                                    assert(s.contains(s[idx - 1]));
                                }
                            }
                            if s.contains(x) {
                                let j = choose|j: int| 0 <= j < n && s[j] == x;
                                if j < idx {
                                    assert(t[j] == x);
                                } else {
                                    assert(t[j - 1] == x);
                                }
                            }
                            if t.contains(x) {
                                let j = choose|j: int| 0 <= j < t.len() && t[j] == x;
                                if j < idx {
                                    assert(s[j] == x);
                                } else {
                                    assert(s[j + 1] == x);
                                }
                            }
                        }
                    } else {
                        assert(self.stored(k, Some(x)) == old(self).stored(k, Some(x)));
                    }
                }
                assert forall|k: u64| #[trigger] self.members(k).no_duplicates() by {
                    if k == key {
                        assert forall|i: int, j: int|
                            0 <= i < t.len() && 0 <= j < t.len() && i != j implies t[i] != t[j] by {
                            let si = if i < idx { i } else { i + 1 };
                            let sj = if j < idx { j } else { j + 1 };
                            assert(t[i] == s[si]);
                            assert(t[j] == s[sj]);
                        }
                    } else {
                        assert(old(self).members(k).no_duplicates());
                    }
                }
                assert forall|k: u64| #[trigger] self.read_spec(k, None) == head_of(self.members(k))
                    by {
                    if k != key {
                        assert(old(self).read_spec(k, None) == head_of(old(self).members(k)));
                    }
                }
                assert forall|k: u64, i: int|
                    0 <= i < self.members(k).len() implies #[trigger] self.stored(
                    k,
                    Some(self.members(k)[i]),
                ) == Some(node_at(self.members(k), i)) by {
                    if k != key {
                        assert(old(self).stored(k, Some(old(self).members(k)[i])) == Some(
                            node_at(old(self).members(k), i),
                        ));
                    }
                }
            }
        } else {
            proof {
                lemma_same_store(*old(self), *self);
            }
        }
        proof {
            lemma_reachable_is_members(*old(self), key);
            lemma_reachable_is_members(*self, key);
            let f = self.members(key);
            assert forall|x: u32| f.contains(x) <==> s.contains(x) && x != value by {
                if s.contains(value) {
                    if f.contains(x) {
                        let j = choose|j: int| 0 <= j < f.len() && f[j] == x;
                        if j < idx {
                            assert(s[j] == x);
                        } else {
                            assert(s[j + 1] == x);
                        }
                    }
                    if s.contains(x) && x != value {
                        let j = choose|j: int| 0 <= j < s.len() && s[j] == x;
                        if j < idx {
                            assert(f[j] == x);
                        } else {
                            assert(f[j - 1] == x);
                        }
                    }
                }
            }
            assert(f.to_set() =~= s.to_set().remove(value));
        }
    }

    /// The node at slot `item` of the list under `key`, or the empty node
    /// where nothing is stored there.
    pub fn read(&self, key: u64, item: Option<u32>) -> (r: LinkedItem<u32>)
        ensures
            r == self.read_spec(key, item),
    {
        match self.get(key, item) {
            Some(n) => n,
            None => LinkedItem { prev: None, next: None },
        }
    }

    fn read_head(&self, key: u64) -> (r: LinkedItem<u32>)
        ensures
            r == self.read_spec(key, None),
    {
        self.read(key, None)
    }

    fn write(&mut self, key: u64, item: Option<u32>, node: LinkedItem<u32>)
        ensures
            final(self).lists == old(self).lists,
            forall|k: u64, i: Option<u32>|
                #[trigger] final(self).stored(k, i) == if k == key && i == item {
                    Some(node)
                } else {
                    old(self).stored(k, i)
                },
    {
        self.store.insert(key, item, node);
    }

    fn write_head(&mut self, key: u64, node: LinkedItem<u32>)
        ensures
            final(self).lists == old(self).lists,
            forall|k: u64, i: Option<u32>|
                #[trigger] final(self).stored(k, i) == if k == key && i == None::<u32> {
                    Some(node)
                } else {
                    old(self).stored(k, i)
                },
    {
        self.write(key, None, node)
    }

    fn take(&mut self, key: u64, item: u32) -> (r: Option<LinkedItem<u32>>)
        ensures
            final(self).lists == old(self).lists,
            r.is_none() ==> final(self).store.slots() == old(self).store.slots(),
            r == old(self).stored(key, Some(item)),
            forall|k: u64, i: Option<u32>|
                #[trigger] final(self).stored(k, i) == if k == key && i == Some(item) {
                    None
                } else {
                    old(self).stored(k, i)
                },
    {
        let r = self.store.take(key, Some(item));
        proof {
            if r.is_none() {
                assert(self.store.slots() =~= old(self).store.slots());
            }
        }
        r
    }
}

/// How a list lies in the store: the head holds the last and the first
/// member, each member holds its neighbours, and no other item of the key
/// has a node.
pub proof fn lemma_store_layout<S: LinkStore>(l: LinkedList<S>, key: u64)
    requires
        l.wf(),
    ensures
        l.members(key).no_duplicates(),
        l.read_spec(key, None) == head_of(l.members(key)),
        forall|i: int|
            0 <= i < l.members(key).len() ==> #[trigger] l.stored(key, Some(l.members(key)[i]))
                == Some(node_at(l.members(key), i)),
        forall|x: u32| #[trigger] l.stored(key, Some(x)).is_some() <==> l.members(key).contains(x),
{
    assert(l.read_spec(key, None) == head_of(l.members(key)));
    assert(l.members(key).no_duplicates());
}

/// Walking `next` from the head meets the members first to last, each
/// once, and is back at the head one step after the last member; walking
/// `prev` from the head meets the same members last to first and closes
/// the cycle in the same number of steps.
pub proof fn lemma_cycle_closure<S: LinkStore>(l: LinkedList<S>, key: u64)
    requires
        l.wf(),
    ensures
        forall|k: int|
            1 <= k <= l.members(key).len() ==> #[trigger] l.walk_next(key, k as nat) == Some(
                l.members(key)[k - 1],
            ),
        forall|k: int|
            1 <= k <= l.members(key).len() ==> #[trigger] l.walk_prev(key, k as nat) == Some(
                l.members(key)[l.members(key).len() - k],
            ),
        l.walk_next(key, l.members(key).len() + 1) == None::<u32>,
        l.walk_prev(key, l.members(key).len() + 1) == None::<u32>,
{
    let s = l.members(key);
    let n = s.len();
    assert forall|k: int| 1 <= k <= n implies #[trigger] l.walk_next(key, k as nat) == Some(
        s[k - 1],
    ) by {
        lemma_walk_steps(l, key, k as nat);
    }
    assert forall|k: int| 1 <= k <= n implies #[trigger] l.walk_prev(key, k as nat) == Some(
        s[n - k],
    ) by {
        lemma_walk_steps(l, key, k as nat);
    }
    assert(l.read_spec(key, None) == head_of(s));
    if n > 0 {
        lemma_walk_steps(l, key, n);
        assert(l.stored(key, Some(s[n - 1])) == Some(node_at(s, n - 1)));
        assert(l.stored(key, Some(s[0])) == Some(node_at(s, 0)));
    }
}

proof fn lemma_walk_steps<S: LinkStore>(l: LinkedList<S>, key: u64, k: nat)
    requires
        l.wf(),
        1 <= k <= l.members(key).len(),
    ensures
        l.walk_next(key, k) == Some(l.members(key)[k - 1]),
        l.walk_prev(key, k) == Some(l.members(key)[l.members(key).len() - k]),
    decreases k,
{
    let s = l.members(key);
    let n = s.len() as int;
    assert(l.read_spec(key, None) == head_of(s));
    if k > 1 {
        lemma_walk_steps(l, key, (k - 1) as nat);
        assert(l.stored(key, Some(s[k - 2])) == Some(node_at(s, k - 2)));
        assert(l.stored(key, Some(s[n - k + 1])) == Some(node_at(s, n - k + 1)));
    }
}

proof fn lemma_walk_stays_in_list<S: LinkStore>(l: LinkedList<S>, key: u64, k: nat)
    requires
        l.wf(),
    ensures
        match l.walk_next(key, k) {
            None => true,
            Some(x) => l.members(key).contains(x),
        },
    decreases k,
{
    let s = l.members(key);
    assert(l.read_spec(key, None) == head_of(s));
    if k > 0 {
        lemma_walk_stays_in_list(l, key, (k - 1) as nat);
        match l.walk_next(key, (k - 1) as nat) {
            None => {
                if s.len() > 0 {
                    assert(s.contains(s[0]));
                }
            },
            Some(x) => {
                let j = choose|j: int| 0 <= j < s.len() && s[j] == x;
                assert(l.stored(key, Some(s[j])) == Some(node_at(s, j)));
                if j + 1 < s.len() {
                    assert(s.contains(s[j + 1]));
                }
            },
        }
    }
}

/// The items met by walking `next` from the head are exactly the members
/// of the list.
pub proof fn lemma_reachable_is_members<S: LinkStore>(l: LinkedList<S>, key: u64)
    requires
        l.wf(),
    ensures
        l.reachable(key) == l.members(key).to_set(),
{
    let s = l.members(key);
    assert forall|x: u32| l.reachable(key).contains(x) <==> s.to_set().contains(x) by {
        if l.reachable(key).contains(x) {
            let k = choose|k: nat| l.walk_next(key, k) == Some(x);
            lemma_walk_stays_in_list(l, key, k);
        }
        if s.contains(x) {
            let j = choose|j: int| 0 <= j < s.len() && s[j] == x;
            lemma_walk_steps(l, key, (j + 1) as nat);
            assert(l.walk_next(key, (j + 1) as nat) == Some(x));
        }
    }
    assert(l.reachable(key) =~= s.to_set());
}

proof fn lemma_same_store<S: LinkStore>(a: LinkedList<S>, b: LinkedList<S>)
    requires
        a.wf(),
        a.store.slots() == b.store.slots(),
        a.lists == b.lists,
    ensures
        b.wf(),
        forall|k: u64, i: Option<u32>| #[trigger] b.stored(k, i) == a.stored(k, i),
        forall|k: u64| #[trigger] b.members(k) == a.members(k),
{
    assert forall|k: u64, i: Option<u32>| #[trigger] b.stored(k, i) == a.stored(k, i) by {}
    assert forall|k: u64| #[trigger] b.members(k) == a.members(k) by {}
    assert forall|k: u64| #[trigger] b.read_spec(k, None) == head_of(b.members(k)) by {
        assert(a.read_spec(k, None) == head_of(a.members(k)));
    }
}

} // verus!
