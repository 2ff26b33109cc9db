//! Containers indexed by packet identifier.

use vstd::prelude::*;
use fixedbitset::FixedBitSet;
use crate::bitset::{
    bits_of, bitset_clear, bitset_contains, bitset_len, bitset_ones, bitset_put, bitset_set,
    bitset_with_capacity,
};
use crate::marks::{
    lemma_marked_agree, lemma_marked_ascending, lemma_marked_counts, lemma_marked_none,
    lemma_marked_split, lemma_raised_update, marked, raised, raised_below,
};
use crate::packet::Publish;

verus! {

/// The packet identifier that fell outside a container's capacity.
#[derive(Debug, Copy, Clone, PartialEq, Eq, Structural)]
pub struct OutOfBounds(pub u16);

/// Publishes awaiting acknowledgment, each stored in the slot whose index is
/// its packet identifier.
#[derive(Debug, Clone)]
pub struct OutgoingPublishBucket {
    vec: Vec<Option<Publish>>,
    count: usize,
}

/// Which slots of a table are occupied.
pub open spec fn occupancy(slots: Seq<Option<Publish>>) -> Seq<bool> {
    Seq::new(slots.len(), |i: int| slots[i] is Some)
}

/// A table of `n` empty slots.
pub open spec fn empty_slots(n: nat) -> Seq<Option<Publish>> {
    Seq::new(n, |i: int| None::<Publish>)
}

/// The slot indices that a drain visits, in the order it visits them: the
/// occupied slots from `last_puback` to the end, then those before
/// `last_puback`. A `last_puback` beyond the table leaves the first part empty.
pub open spec fn drain_order(slots: Seq<Option<Publish>>, last_puback: int) -> Seq<int> {
    let n = slots.len() as int;
    let split = if last_puback < n { last_puback } else { n };
    marked(occupancy(slots), split, n) + marked(occupancy(slots), 0, split)
}

/// A drain visits every occupied slot once and no other; of two visits,
/// the earlier is of the lower slot, unless the earlier is of a slot from
/// `last_puback` on and the later of one before it.
pub proof fn lemma_drain_order(slots: Seq<Option<Publish>>, last_puback: int)
    requires
        0 <= last_puback,
    ensures
        drain_order(slots, last_puback).len() == raised(occupancy(slots)),
        forall|k: int|
            0 <= k < drain_order(slots, last_puback).len() ==> 0 <= #[trigger] drain_order(
                slots,
                last_puback,
            )[k] < slots.len() && slots[drain_order(slots, last_puback)[k]] is Some,
        forall|i: int|
            0 <= i < slots.len() && (#[trigger] slots[i]) is Some ==> exists|k: int|
                0 <= k < drain_order(slots, last_puback).len() && drain_order(
                    slots,
                    last_puback,
                )[k] == i,
        forall|j: int, k: int|
            0 <= j < k < drain_order(slots, last_puback).len() ==> {
                let first = #[trigger] drain_order(slots, last_puback)[j];
                let second = #[trigger] drain_order(slots, last_puback)[k];
                first < second || (first >= last_puback && second < last_puback)
            },
{
    let n = slots.len() as int;
    let split = if last_puback < n { last_puback } else { n };
    let occ = occupancy(slots);
    let tail = marked(occ, split, n);
    let head = marked(occ, 0, split);
    let order = drain_order(slots, last_puback);
    lemma_marked_ascending(occ, split, n);
    lemma_marked_ascending(occ, 0, split);
    lemma_marked_split(occ, 0, split, n);
    assert(order == tail + head);
    assert forall|i: int| 0 <= i < slots.len() && (#[trigger] slots[i]) is Some implies exists|
        k: int,
    |
        0 <= k < order.len() && order[k] == i by {
        assert(occ[i]);
        if i >= split {
            let k = choose|k: int| 0 <= k < tail.len() && tail[k] == i;
            assert(order[k] == i);
        } else {
            let k = choose|k: int| 0 <= k < head.len() && head[k] == i;
            assert(order[tail.len() + k] == i);
        }
    }
    assert forall|j: int, k: int| 0 <= j < k < order.len() implies {
        let first = #[trigger] order[j];
        let second = #[trigger] order[k];
        first < second || (first >= last_puback && second < last_puback)
    } by {
        if k < tail.len() {
            assert(order[j] == tail[j] && order[k] == tail[k]);
        } else if j >= tail.len() {
            assert(order[j] == head[j - tail.len()] && order[k] == head[k - tail.len()]);
        } else {
            assert(order[j] == tail[j] && order[k] == head[k - tail.len()]);
        }
    }
}

impl View for OutgoingPublishBucket {
    type V = Seq<Option<Publish>>;

    closed spec fn view(&self) -> Seq<Option<Publish>> {
        self.vec@
    }
}

impl OutgoingPublishBucket {
    /// The running count equals the number of occupied slots.
    pub closed spec fn wf(&self) -> bool {
        self.count == raised(occupancy(self.vec@))
    }

    /// The number of occupied slots, as the running count holds it.
    pub closed spec fn spec_len(&self) -> nat {
        self.count as nat
    }

    /// In a well-formed table the running count is the number of occupied
    /// slots: the size of the set of indices whose slot holds a publish.
    pub proof fn lemma_len_counts_occupied(&self)
        requires
            self.wf(),
        ensures
            self.spec_len() == raised(occupancy(self@)),
            self.spec_len() == Set::new(|i: int| 0 <= i < self@.len() && self@[i] is Some).len(),
            self.spec_len() <= self@.len(),
    {
        let n = self@.len() as int;
        lemma_marked_ascending(occupancy(self@), 0, n);
        lemma_marked_counts(occupancy(self@), n);
        assert(Set::new(|i: int| 0 <= i < self@.len() && self@[i] is Some) =~= raised_below(
            occupancy(self@),
            n,
        ));
    }

    /// A publish stored under an identifier within the table is what a
    /// lookup of that identifier finds and what removing it hands back;
    /// after the removal the slot is empty. The other slots stay as they
    /// were throughout.
    pub proof fn lemma_insert_get_remove(slots: Seq<Option<Publish>>, value: Publish)
        requires
            value.pkid < slots.len(),
        ensures
            slots.update(value.pkid as int, Some(value))[value.pkid as int] == Some(value),
            slots.update(value.pkid as int, Some(value)).update(value.pkid as int, None)[value.pkid as int]
                is None,
            forall|i: int|
                0 <= i < slots.len() && i != value.pkid ==> slots.update(
                    value.pkid as int,
                    Some(value),
                ).update(value.pkid as int, None)[i] == slots[i],
    {
    }

    /// A table with the slots `0..=max_pkid`, all empty.
    pub fn with_limit(max_pkid: u16) -> (table: Self)
        ensures
            table.wf(),
            table@ == empty_slots((max_pkid + 1) as nat),
            table.spec_len() == 0,
    {
        let n: usize = max_pkid as usize + 1;
        let mut vec: Vec<Option<Publish>> = Vec::with_capacity(n);
        let mut i: usize = 0;
        while i < n
            invariant
                i <= n,
                vec@ == empty_slots(i as nat),
            decreases n - i,
        {
            vec.push(None);
            i += 1;
            assert(vec@ =~= empty_slots(i as nat));
        }
        proof {
            lemma_marked_none(occupancy(vec@), 0, n as int);
        }
        OutgoingPublishBucket { vec, count: 0 }
    }

    /// The table over the given slots, with the occupied ones counted.
    pub closed spec fn of_slots(slots: Vec<Option<Publish>>) -> Self {
        OutgoingPublishBucket { vec: slots, count: raised(occupancy(slots@)) as usize }
    }

    /// The table over given slots is well formed and holds those slots.
    pub proof fn lemma_of_slots(slots: Vec<Option<Publish>>)
        ensures
            Self::of_slots(slots).wf(),
            Self::of_slots(slots)@ == slots@,
    {
        lemma_marked_ascending(occupancy(slots@), 0, slots@.len() as int);
        assert(slots@.len() == slots.len());
    }

    /// The number of occupied slots.
    pub fn len(&self) -> (n: usize)
        requires
            self.wf(),
        ensures
            n == self.spec_len(),
            n == raised(occupancy(self@)),
    {
        self.count
    }

    /// Stores `value` in the slot of its packet identifier and returns what
    /// the slot held. An identifier beyond the table is refused and the table
    /// stays as it was.
    pub fn insert(&mut self, value: Publish) -> (r: Result<Option<Publish>, OutOfBounds>)
        requires
            old(self).wf(),
        ensures
            final(self).wf(),
            value.pkid < old(self)@.len() ==> r == Ok::<Option<Publish>, OutOfBounds>(
                old(self)@[value.pkid as int],
            ) && final(self)@ == old(self)@.update(value.pkid as int, Some(value))
                && final(self).spec_len() == old(self).spec_len() + (if old(
                self,
            )@[value.pkid as int] is None {
                1nat
            } else {
                0
            }),
            value.pkid >= old(self)@.len() ==> r == Err::<Option<Publish>, OutOfBounds>(
                OutOfBounds(value.pkid),
            ) && *final(self) == *old(self),
    {
        let index = value.pkid as usize;
        if index >= self.vec.len() {
            return Err(OutOfBounds(value.pkid));
        }
        proof {
            lemma_raised_update(occupancy(self.vec@), index as int, true);
            lemma_marked_ascending(
                occupancy(self.vec@).update(index as int, true),
                0,
                self.vec@.len() as int,
            );
            assert(occupancy(self.vec@.update(index as int, Some(value))) =~= occupancy(
                self.vec@,
            ).update(index as int, true));
        }
        let prior = self.vec[index].take();
        self.vec[index] = Some(value);
        if prior.is_none() {
            self.count += 1;
        }
        assert(self.vec@ =~= old(self).vec@.update(index as int, Some(value)));
        Ok(prior)
    }

    /// Empties the slot of `pkid` and returns what it held. An identifier
    /// beyond the table is refused and the table stays as it was.
    pub fn remove(&mut self, pkid: u16) -> (r: Result<Option<Publish>, OutOfBounds>)
        requires
            old(self).wf(),
        ensures
            final(self).wf(),
            pkid < old(self)@.len() ==> r == Ok::<Option<Publish>, OutOfBounds>(
                old(self)@[pkid as int],
            ) && final(self)@ == old(self)@.update(pkid as int, None) && final(self).spec_len()
                == old(self).spec_len() - (if old(self)@[pkid as int] is Some {
                1int
            } else {
                0
            }),
            pkid >= old(self)@.len() ==> r == Err::<Option<Publish>, OutOfBounds>(
                OutOfBounds(pkid),
            ) && *final(self) == *old(self),
    {
        let index = pkid as usize;
        if index >= self.vec.len() {
            return Err(OutOfBounds(pkid));
        }
        proof {
            lemma_raised_update(occupancy(self.vec@), index as int, false);
            assert(occupancy(self.vec@.update(index as int, None)) =~= occupancy(
                self.vec@,
            ).update(index as int, false));
        }
        let prior = self.vec[index].take();
        if prior.is_some() {
            self.count -= 1;
        }
        assert(self.vec@ =~= old(self).vec@.update(index as int, None));
        Ok(prior)
    }

    /// What the slot of `pkid` holds, left in place.
    pub fn get(&self, pkid: u16) -> (r: Result<Option<&Publish>, OutOfBounds>)
        ensures
            pkid < self@.len() ==> r is Ok && match r->Ok_0 {
                Some(p) => self@[pkid as int] == Some(*p),
                None => self@[pkid as int] is None,
            },
            pkid >= self@.len() ==> r == Err::<Option<&Publish>, OutOfBounds>(OutOfBounds(pkid)),
    {
        let index = pkid as usize;
        if index >= self.vec.len() {
            return Err(OutOfBounds(pkid));
        }
        Ok(self.vec[index].as_ref())
    }

    /// Takes every stored publish out of slots `lo..hi`, in slot order, and
    /// appends what `map` makes of each to `sink`.
    fn drain_range<T, F: Fn(Publish) -> T>(
        &mut self,
        sink: &mut Vec<T>,
        lo: usize,
        hi: usize,
        map: &F,
    )
        requires
            lo <= hi <= old(self).vec@.len(),
            forall|p: Publish| map.requires((p,)),
        ensures
            final(self).count == old(self).count,
            final(self).vec@.len() == old(self).vec@.len(),
            forall|j: int|
                0 <= j < old(self).vec@.len() ==> #[trigger] final(self).vec@[j] == (if lo <= j
                    < hi {
                    None
                } else {
                    old(self).vec@[j]
                }),
            final(sink)@.len() == old(sink)@.len() + marked(
                occupancy(old(self).vec@),
                lo as int,
                hi as int,
            ).len(),
            forall|k: int| 0 <= k < old(sink)@.len() ==> final(sink)@[k] == old(sink)@[k],
            forall|k: int|
                0 <= k < marked(occupancy(old(self).vec@), lo as int, hi as int).len()
                    ==> map.ensures(
                    (old(self).vec@[marked(occupancy(old(self).vec@), lo as int, hi as int)[k]]->Some_0,),
                    #[trigger] final(sink)@[old(sink)@.len() + k],
                ),
    {
        let ghost slots = self.vec@;
        let ghost start = sink@;
        let ghost occ = occupancy(slots);
        let mut i: usize = lo;
        while i < hi
            invariant
                lo <= i <= hi <= slots.len(),
                occ == occupancy(slots),
                self.count == old(self).count,
                self.vec@.len() == slots.len(),
                forall|j: int|
                    0 <= j < slots.len() ==> #[trigger] self.vec@[j] == (if lo <= j < i {
                        None
                    } else {
                        slots[j]
                    }),
                sink@.len() == start.len() + marked(occ, lo as int, i as int).len(),
                forall|k: int| 0 <= k < start.len() ==> sink@[k] == start[k],
                forall|k: int|
                    0 <= k < marked(occ, lo as int, i as int).len() ==> map.ensures(
                        (slots[marked(occ, lo as int, i as int)[k]]->Some_0,),
                        #[trigger] sink@[start.len() + k],
                    ),
                forall|p: Publish| map.requires((p,)),
            decreases hi - i,
        {
            let taken = self.vec[i].take();
            if let Some(publish) = taken {
                let item = map(publish);
                sink.push(item);
            }
            i += 1;
        }
    }

    /// Empties the table into `sink`, in the order in which the publishes
    /// were sent: the slots from `last_puback` to the end come first, then
    /// the slots before `last_puback`. Each publish goes through `map` and is
    /// appended to `sink`. Afterwards every slot is empty and the count is 0.
    pub fn drain_into<T, F: Fn(Publish) -> T>(
        &mut self,
        sink: &mut Vec<T>,
        last_puback: usize,
        map: F,
    )
        requires
            forall|p: Publish| map.requires((p,)),
        ensures
            final(self).wf(),
            final(self).spec_len() == 0,
            final(self)@ == empty_slots(old(self)@.len()),
            final(sink)@.len() == old(sink)@.len() + drain_order(
                old(self)@,
                last_puback as int,
            ).len(),
            forall|k: int| 0 <= k < old(sink)@.len() ==> final(sink)@[k] == old(sink)@[k],
            forall|k: int|
                0 <= k < drain_order(old(self)@, last_puback as int).len() ==> map.ensures(
                    (old(self)@[drain_order(old(self)@, last_puback as int)[k]]->Some_0,),
                    #[trigger] final(sink)@[old(sink)@.len() + k],
                ),
    {
        let n = self.vec.len();
        let split = if last_puback < n { last_puback } else { n };
        let ghost slots = self.vec@;
        let ghost occ = occupancy(slots);
        let ghost start = sink@;
        self.drain_range(sink, split, n, &map);
        let ghost mid_slots = self.vec@;
        let ghost mid = sink@;
        self.drain_range(sink, 0, split, &map);
        self.count = 0;
        proof {
            let tail = marked(occ, split as int, n as int);
            let head = marked(occ, 0, split as int);
            lemma_marked_agree(occ, occupancy(mid_slots), 0, split as int);
            lemma_marked_ascending(occ, 0, split as int);
            assert(self.vec@ =~= empty_slots(slots.len()));
            lemma_marked_none(occupancy(self.vec@), 0, n as int);
            assert(drain_order(slots, last_puback as int) == tail + head);
            assert forall|k: int| 0 <= k < (tail + head).len() implies map.ensures(
                (slots[(tail + head)[k]]->Some_0,),
                #[trigger] sink@[start.len() + k],
            ) by {
                if k < tail.len() {
                    assert(sink@[start.len() + k] == mid[start.len() + k]);
                } else {
                    let h = k - tail.len();
                    assert(sink@[mid.len() + h] == sink@[start.len() + k]);
                    assert(mid_slots[head[h]] == slots[head[h]]);
                }
            }
        }
    }
}

impl From<Vec<Option<Publish>>> for OutgoingPublishBucket {
    /// A table over the given slots; the occupied ones are counted once, here.
    fn from(vec: Vec<Option<Publish>>) -> (table: Self) {
        let n = vec.len();
        let mut count: usize = 0;
        let mut i: usize = 0;
        while i < n
            invariant
                i <= n,
                n == vec@.len(),
                count == marked(occupancy(vec@), 0, i as int).len(),
                count <= i,
            decreases n - i,
        {
            if vec[i].is_some() {
                count += 1;
            }
            i += 1;
        }
        OutgoingPublishBucket { vec, count }
    }
}

impl vstd::std_specs::convert::FromSpecImpl<Vec<Option<Publish>>> for OutgoingPublishBucket {
    open spec fn obeys_from_spec() -> bool {
        true
    }

    open spec fn from_spec(vec: Vec<Option<Publish>>) -> Self {
        Self::of_slots(vec)
    }
}

/// The packet identifiers in use, one bit each.
#[derive(Debug)]
pub struct PkidSet {
    set: FixedBitSet,
    count: usize,
}

/// A set of capacity `n` with no identifier in it.
pub open spec fn no_bits(n: nat) -> Seq<bool> {
    Seq::new(n, |i: int| false)
}

impl View for PkidSet {
    type V = Seq<bool>;

    /// Bit `i` says whether identifier `i` is in the set.
    closed spec fn view(&self) -> Seq<bool> {
        bits_of(self.set)
    }
}

impl Clone for PkidSet {
    fn clone(&self) -> (copy: Self)
        ensures
            copy@ == self@,
            copy.spec_len() == self.spec_len(),
            copy.wf() == self.wf(),
    {
        PkidSet { set: self.set.clone(), count: self.count }
    }
}

impl PkidSet {
    /// The running count equals the number of set bits, and every index is
    /// a packet identifier.
    pub closed spec fn wf(&self) -> bool {
        &&& self.count == raised(bits_of(self.set))
        &&& bits_of(self.set).len() <= 0x1_0000
    }

    /// The number of set bits, as the running count holds it.
    pub closed spec fn spec_len(&self) -> nat {
        self.count as nat
    }

    /// In a well-formed set the running count is the number of set bits:
    /// the size of the set of identifiers whose bit is set.
    pub proof fn lemma_len_counts_bits(&self)
        requires
            self.wf(),
        ensures
            self.spec_len() == raised(self@),
            self.spec_len() == Set::new(|i: int| 0 <= i < self@.len() && self@[i]).len(),
            self.spec_len() <= self@.len() <= 0x1_0000,
    {
        let n = self@.len() as int;
        lemma_marked_ascending(self@, 0, n);
        lemma_marked_counts(self@, n);
        assert(Set::new(|i: int| 0 <= i < self@.len() && self@[i]) =~= raised_below(self@, n));
    }

    /// An empty set for the identifiers `0..=max_pkid`.
    pub fn with_limit(max_pkid: u16) -> (set: Self)
        ensures
            set.wf(),
            set@ == no_bits((max_pkid + 1) as nat),
            set.spec_len() == 0,
    {
        let set = bitset_with_capacity(max_pkid as usize + 1);
        proof {
            lemma_marked_none(bits_of(set), 0, max_pkid + 1);
        }
        PkidSet { set, count: 0 }
    }

    /// An empty set for every 16-bit identifier.
    pub fn full_range() -> (set: Self)
        ensures
            set.wf(),
            set@ == no_bits(0x1_0000),
            set.spec_len() == 0,
    {
        Self::with_limit(u16::MAX)
    }

    /// The number of identifiers in the set.
    pub fn len(&self) -> (n: usize)
        requires
            self.wf(),
        ensures
            n == self.spec_len(),
            n == raised(self@),
    {
        self.count
    }

    /// Puts `pkid` in the set and says whether it was there already. An
    /// identifier beyond the capacity is refused and the set stays as it was.
    pub fn insert(&mut self, pkid: u16) -> (r: Result<bool, OutOfBounds>)
        requires
            old(self).wf(),
        ensures
            final(self).wf(),
            pkid < old(self)@.len() ==> r == Ok::<bool, OutOfBounds>(old(self)@[pkid as int])
                && final(self)@ == old(self)@.update(pkid as int, true) && final(self).spec_len()
                == old(self).spec_len() + (if old(self)@[pkid as int] {
                0nat
            } else {
                1
            }),
            pkid >= old(self)@.len() ==> r == Err::<bool, OutOfBounds>(OutOfBounds(pkid))
                && *final(self) == *old(self),
    {
        let index = pkid as usize;
        if index >= bitset_len(&self.set) {
            return Err(OutOfBounds(pkid));
        }
        proof {
            lemma_raised_update(bits_of(self.set), index as int, true);
            lemma_marked_ascending(
                bits_of(self.set).update(index as int, true),
                0,
                bits_of(self.set).len() as int,
            );
        }
        let was_present = bitset_put(&mut self.set, index);
        if !was_present {
            self.count += 1;
        }
        Ok(was_present)
    }

    /// Whether `pkid` is in the set; an identifier beyond the capacity is not.
    pub fn contains(&self, pkid: u16) -> (is_in: bool)
        ensures
            is_in == (pkid < self@.len() && self@[pkid as int]),
    {
        bitset_contains(&self.set, pkid as usize)
    }

    /// Takes `pkid` out of the set and says whether it was there. An
    /// identifier beyond the capacity is refused and the set stays as it was.
    pub fn remove(&mut self, pkid: u16) -> (r: Result<bool, OutOfBounds>)
        requires
            old(self).wf(),
        ensures
            final(self).wf(),
            pkid < old(self)@.len() ==> r == Ok::<bool, OutOfBounds>(old(self)@[pkid as int])
                && final(self)@ == old(self)@.update(pkid as int, false) && final(self).spec_len()
                == old(self).spec_len() - (if old(self)@[pkid as int] {
                1int
            } else {
                0
            }),
            pkid >= old(self)@.len() ==> r == Err::<bool, OutOfBounds>(OutOfBounds(pkid))
                && *final(self) == *old(self),
    {
        let index = pkid as usize;
        if index >= bitset_len(&self.set) {
            return Err(OutOfBounds(pkid));
        }
        proof {
            lemma_raised_update(bits_of(self.set), index as int, false);
        }
        let was_present = bitset_contains(&self.set, index);
        bitset_set(&mut self.set, index, false);
        if was_present {
            self.count -= 1;
        }
        Ok(was_present)
    }

    /// Empties the set into `sink`: the identifiers in ascending order, each
    /// put through `map` and appended.
    pub fn drain_into<T, F: Fn(u16) -> T>(&mut self, sink: &mut Vec<T>, map: F)
        requires
            old(self).wf(),
            forall|pkid: u16| map.requires((pkid,)),
        ensures
            final(self).wf(),
            final(self).spec_len() == 0,
            final(self)@ == no_bits(old(self)@.len()),
            final(sink)@.len() == old(sink)@.len() + raised(old(self)@),
            forall|k: int| 0 <= k < old(sink)@.len() ==> final(sink)@[k] == old(sink)@[k],
            forall|k: int|
                0 <= k < raised(old(self)@) ==> map.ensures(
                    (marked(old(self)@, 0, old(self)@.len() as int)[k] as u16,),
                    #[trigger] final(sink)@[old(sink)@.len() + k],
                ),
    {
        let ones = bitset_ones(&self.set);
        let ghost order = marked(bits_of(self.set), 0, bits_of(self.set).len() as int);
        let ghost start = sink@;
        proof {
            lemma_marked_ascending(bits_of(self.set), 0, bits_of(self.set).len() as int);
            assert(ones@.len() == ones@.map_values(|i: usize| i as int).len());
        }
        let mut k: usize = 0;
        while k < ones.len()
            invariant
                k <= ones@.len() == order.len(),
                ones@.map_values(|i: usize| i as int) == order,
                forall|j: int| 0 <= j < order.len() ==> 0 <= #[trigger] order[j] < 0x1_0000,
                sink@.len() == start.len() + k,
                forall|j: int| 0 <= j < start.len() ==> sink@[j] == start[j],
                forall|j: int|
                    0 <= j < k ==> map.ensures((order[j] as u16,), #[trigger] sink@[start.len() + j]),
                forall|pkid: u16| map.requires((pkid,)),
            decreases ones@.len() - k,
        {
            let bit = ones[k];
            assert(ones@.map_values(|i: usize| i as int)[k as int] == bit as int);
            let item = map(bit as u16);
            sink.push(item);
            k += 1;
        }
        self.clear();
    }

    /// Takes every identifier out of the set.
    pub fn clear(&mut self)
        requires
            old(self).wf(),
        ensures
            final(self).wf(),
            final(self).spec_len() == 0,
            final(self)@ == no_bits(old(self)@.len()),
    {
        bitset_clear(&mut self.set);
        self.count = 0;
        proof {
            lemma_marked_none(bits_of(self.set), 0, bits_of(self.set).len() as int);
        }
    }
}

} // verus!
