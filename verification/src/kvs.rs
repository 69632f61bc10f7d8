//! The state store: the application state of each user address. Reading
//! takes an address, which is derived from a public key or a checked
//! signature; writing is left to the instruction pipeline.

use crate::crypto::UserAddress;
use crate::state_type::StateType;
use vstd::prelude::*;

verus! {

/// A state to be written for an address.
#[derive(Debug)]
pub struct StateUpdate {
    pub address: UserAddress,
    pub state: StateType,
}

impl StateUpdate {
    /// The address and the state bytes of the update.
    pub open spec fn pair(&self) -> (Seq<u8>, Seq<u8>) {
        (self.address@, self.state@)
    }

    /// A copy of the update.
    pub fn duplicate(&self) -> (update: StateUpdate)
        ensures
            update.pair() == self.pair(),
    {
        StateUpdate { address: self.address, state: self.state.duplicate() }
    }
}

/// The addresses and states of a list of updates, in order.
pub open spec fn pairs(updates: Seq<StateUpdate>) -> Seq<(Seq<u8>, Seq<u8>)> {
    Seq::new(updates.len(), |i: int| updates[i].pair())
}

/// The states after the updates have been written, in order, over `states`.
pub open spec fn written(states: Map<Seq<u8>, Seq<u8>>, updates: Seq<(Seq<u8>, Seq<u8>)>) -> Map<
    Seq<u8>,
    Seq<u8>,
>
    decreases updates.len(),
{
    if updates.len() == 0 {
        states
    } else {
        written(states, updates.drop_last()).insert(updates.last().0, updates.last().1)
    }
}

/// The state of `address` in `states`: empty where none was written.
pub open spec fn state_in(states: Map<Seq<u8>, Seq<u8>>, address: Seq<u8>) -> Seq<u8> {
    if states.contains_key(address) {
        states[address]
    } else {
        Seq::empty()
    }
}

/// The position of the first of `entries` for `address`.
pub open spec fn first_entry(entries: Seq<StateUpdate>, address: Seq<u8>) -> Option<int>
    decreases entries.len(),
{
    if entries.len() == 0 {
        None
    } else {
        match first_entry(entries.drop_last(), address) {
            Some(at) => Some(at),
            None => if entries.last().address@ == address {
                Some(entries.len() - 1)
            } else {
                None
            },
        }
    }
}

/// The first entry for an address is for that address, and no earlier one
/// is.
pub proof fn lemma_first_entry(entries: Seq<StateUpdate>, address: Seq<u8>)
    ensures
        (match first_entry(entries, address) {
            Some(at) => 0 <= at < entries.len() && entries[at].address@ == address
                && forall|i: int| 0 <= i < at ==> entries[i].address@ != address,
            None => forall|i: int| 0 <= i < entries.len() ==> entries[i].address@ != address,
        }),
    decreases entries.len(),
{
    if entries.len() > 0 {
        let init = entries.drop_last();
        lemma_first_entry(init, address);
        assert(forall|i: int| 0 <= i < init.len() ==> init[i] == entries[i]);
        match first_entry(init, address) {
            Some(at) => {
                assert(entries[at] == init[at]);
            },
            None => {
                assert forall|i: int| 0 <= i < entries.len() - 1 implies entries[i].address@
                    != address by {
                    assert(entries[i] == init[i]);
                }
            },
        }
    }
}

/// A position that holds the first entry for an address is what
/// [`first_entry`] gives.
pub proof fn lemma_first_entry_is(entries: Seq<StateUpdate>, address: Seq<u8>, at: int)
    requires
        0 <= at < entries.len(),
        entries[at].address@ == address,
        forall|i: int| 0 <= i < at ==> entries[i].address@ != address,
    ensures
        first_entry(entries, address) == Some(at),
{
    lemma_first_entry(entries, address);
}

/// The state store, held in memory.
///
/// The entries are kept in the order in which their addresses were first
/// written, and are found by comparing addresses. The keys are 20-byte
/// addresses, and what is stated of the store is stated of its view, the
/// map from address to state; the proofs rest on that comparison alone,
/// not on a model of how such keys hash or order.
#[derive(Debug)]
pub struct MemoryDB {
    entries: Vec<StateUpdate>,
}

impl View for MemoryDB {
    type V = Map<Seq<u8>, Seq<u8>>;

    /// The state written for each address.
    closed spec fn view(&self) -> Map<Seq<u8>, Seq<u8>> {
        Map::new(
            |address: Seq<u8>| first_entry(self.entries@, address).is_some(),
            |address: Seq<u8>| self.entries@[first_entry(self.entries@, address).unwrap()].state@,
        )
    }
}

impl MemoryDB {
    /// An empty store.
    pub fn new() -> (db: MemoryDB)
        ensures
            db@ == Map::<Seq<u8>, Seq<u8>>::empty(),
    {
        let db = MemoryDB { entries: Vec::new() };
        assert(db@ =~= Map::<Seq<u8>, Seq<u8>>::empty());
        db
    }

    /// Where the entry for `address` is.
    fn find(&self, address: &UserAddress) -> (found: Option<usize>)
        ensures
            (match found {
                Some(at) => first_entry(self.entries@, address@) == Some(at as int) && at
                    < self.entries@.len(),
                None => first_entry(self.entries@, address@).is_none(),
            }),
    {
        let mut i: usize = 0;
        while i < self.entries.len()
            invariant
                i <= self.entries@.len(),
                forall|j: int| 0 <= j < i ==> self.entries@[j].address@ != address@,
            decreases self.entries.len() - i,
        {
            if self.entries[i].address.same(address) {
                proof {
                    lemma_first_entry_is(self.entries@, address@, i as int);
                }
                return Some(i);
            }
            i += 1;
        }
        proof {
            lemma_first_entry(self.entries@, address@);
        }
        None
    }

    /// The state of `key`: what was last written for it, or the empty state
    /// where nothing was.
    pub fn get(&self, key: &UserAddress) -> (state: StateType)
        ensures
            state@ == state_in(self@, key@),
    {
        match self.find(key) {
            Some(at) => self.entries[at].state.duplicate(),
            None => StateType::new(Vec::new()),
        }
    }

    /// Writes one state.
    pub(crate) fn write_one(&mut self, update: StateUpdate)
        ensures
            final(self)@ == old(self)@.insert(update.address@, update.state@),
    {
        let ghost before = self.entries@;
        let ghost address = update.address@;
        let ghost state = update.state@;
        match self.find(&update.address) {
            Some(at) => {
                proof {
                    lemma_first_entry(before, address);
                }
                self.entries.set(at, update);
                proof {
                    assert(forall|j: int|
                        0 <= j < before.len() ==> (#[trigger] self.entries@[j]).address@
                            == before[j].address@);
                    assert forall|other: Seq<u8>|
                        first_entry(self.entries@, other) == first_entry(before, other) by {
                        lemma_first_entry(before, other);
                        lemma_first_entry(self.entries@, other);
                        match first_entry(before, other) {
                            Some(i) => {
                                assert(self.entries@[i].address@ == other);
                                lemma_first_entry_is(self.entries@, other, i);
                            },
                            None => {
                                if first_entry(self.entries@, other).is_some() {
                                    let k = first_entry(self.entries@, other).unwrap();
                                    assert(self.entries@[k].address@ == before[k].address@);
                                }
                            },
                        }
                    }
                    assert forall|other: Seq<u8>| #[trigger]
                        self@.contains_key(other) && other != address implies self@[other]
                        == old(self)@[other] by {
                        lemma_first_entry(before, other);
                        let i = first_entry(before, other).unwrap();
                        assert(i != at);
                    }
                }
            },
            None => {
                self.entries.push(update);
                proof {
                    assert forall|other: Seq<u8>|
                        first_entry(self.entries@, other) == if first_entry(before, other).is_some()
                            || other != address {
                            first_entry(before, other)
                        } else {
                            Some(before.len() as int)
                        } by {
                        assert(self.entries@.drop_last() =~= before);
                    }
                    assert forall|other: Seq<u8>| #[trigger]
                        self@.contains_key(other) && other != address implies self@[other]
                        == old(self)@[other] by {
                        lemma_first_entry(before, other);
                    }
                }
            },
        }
        assert(self@ =~= old(self)@.insert(address, state));
    }

    /// Writes the states of `updates`, in order.
    pub(crate) fn write(&mut self, updates: &Vec<StateUpdate>)
        ensures
            final(self)@ == written(old(self)@, pairs(updates@)),
    {
        let mut i: usize = 0;
        while i < updates.len()
            invariant
                i <= updates@.len(),
                self@ == written(old(self)@, pairs(updates@).subrange(0, i as int)),
            decreases updates.len() - i,
        {
            let ghost done = pairs(updates@).subrange(0, i as int);
            self.write_one(updates[i].duplicate());
            proof {
                let next = pairs(updates@).subrange(0, i + 1);
                assert(next.drop_last() =~= done);
                assert(next.last() == updates@[i as int].pair());
            }
            i += 1;
        }
        assert(pairs(updates@).subrange(0, updates@.len() as int) =~= pairs(updates@));
    }
}

} // verus!
