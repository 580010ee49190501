//! Lists in which nothing occurs twice.
use crate::text::texts;
use vstd::hash_set::StringHashSet;
use vstd::prelude::*;

verus! {

broadcast use vstd::hash_set::group_hash_set_axioms;

/// `list` with `item` behind it, unless it is there already.
pub open spec fn added(list: Seq<Seq<char>>, item: Seq<char>) -> Seq<Seq<char>> {
    if list.contains(item) {
        list
    } else {
        list.push(item)
    }
}

/// `list` with each of `items`, in their order, that is not there already.
pub open spec fn added_all(list: Seq<Seq<char>>, items: Seq<Seq<char>>) -> Seq<Seq<char>>
    decreases items.len(),
{
    if items.len() == 0 {
        list
    } else {
        added(added_all(list, items.drop_last()), items.last())
    }
}

/// Adding keeps what was there in its place, repeats nothing, and leaves a list of exactly the old
/// and the new items.
pub proof fn lemma_added_all(list: Seq<Seq<char>>, items: Seq<Seq<char>>)
    requires
        list.no_duplicates(),
    ensures
        added_all(list, items).no_duplicates(),
        list.len() <= added_all(list, items).len(),
        added_all(list, items).take(list.len() as int) == list,
        forall|item: Seq<char>| #[trigger]
            added_all(list, items).contains(item) <==> list.contains(item) || items.contains(item),
    decreases items.len(),
{
    if items.len() == 0 {
        assert(list.take(list.len() as int) =~= list);
    } else {
        let front = items.drop_last();
        let before = added_all(list, front);
        let after = added_all(list, items);
        lemma_added_all(list, front);
        assert(after.take(list.len() as int) =~= before.take(list.len() as int));
        assert forall|item: Seq<char>| #[trigger] after.contains(item) <==> list.contains(item)
            || items.contains(item) by {
            if after.contains(item) {
                let k = choose|k: int| 0 <= k < after.len() && after[k] == item;
                if k < before.len() {
                    assert(before[k] == item);
                    assert(before.contains(item));
                    if front.contains(item) {
                        let m = choose|m: int| 0 <= m < front.len() && front[m] == item;
                        assert(items[m] == item);
                    }
                } else {
                    assert(items[items.len() - 1] == item);
                }
            }
            if list.contains(item) || items.contains(item) {
                if items.contains(item) && !front.contains(item) {
                    let m = choose|m: int| 0 <= m < items.len() && items[m] == item;
                    if m < front.len() {
                        assert(front[m] == item);
                    }
                    assert(item == items.last());
                    if !before.contains(item) {
                        assert(after[after.len() - 1] == item);
                    }
                } else {
                    assert(before.contains(item));
                }
                if before.contains(item) {
                    let k = choose|k: int| 0 <= k < before.len() && before[k] == item;
                    assert(after[k] == item);
                }
            }
        }
    }
}

/// Adding two lists one after the other is adding them joined.
pub proof fn lemma_added_all_joined(
    list: Seq<Seq<char>>,
    first: Seq<Seq<char>>,
    second: Seq<Seq<char>>,
)
    ensures
        added_all(added_all(list, first), second) == added_all(list, first + second),
    decreases second.len(),
{
    if second.len() == 0 {
        assert(first + second =~= first);
    } else {
        assert((first + second).drop_last() =~= first + second.drop_last());
        assert((first + second).last() == second.last());
        lemma_added_all_joined(list, first, second.drop_last());
    }
}

/// Items that all differ are appended in their order, without those that are there already.
pub proof fn lemma_added_all_in_order(list: Seq<Seq<char>>, items: Seq<Seq<char>>)
    requires
        items.no_duplicates(),
    ensures
        added_all(list, items) == list + items.filter(|item: Seq<char>| !list.contains(item)),
    decreases items.len(),
{
    reveal(Seq::filter);
    let fresh = |item: Seq<char>| !list.contains(item);
    if items.len() == 0 {
        assert(list + items.filter(fresh) =~= list);
    } else {
        let front = items.drop_last();
        let last = items.last();
        lemma_added_all_in_order(list, front);
        let kept = front.filter(fresh);
        let before = list + kept;
        if list.contains(last) {
            let k = choose|k: int| 0 <= k < list.len() && list[k] == last;
            assert(before[k] == last);
        } else if before.contains(last) {
            let k = choose|k: int| 0 <= k < before.len() && before[k] == last;
            if k < list.len() {
                assert(list[k] == last);
            }
            assert(kept[k - list.len()] == last);
            assert(kept.contains(last));
            front.lemma_filter_contains_rev(fresh, last);
            let m = choose|m: int| 0 <= m < front.len() && front[m] == last;
            assert(items[m] == items[items.len() - 1]);
        }
        assert(added_all(list, items) =~= list + items.filter(fresh));
    }
}

/// `list` with the items of each of `arrivals` that are not there already, as one list after the
/// other arrives.
pub open spec fn gathered(list: Seq<Seq<char>>, arrivals: Seq<Seq<Seq<char>>>) -> Seq<Seq<char>>
    decreases arrivals.len(),
{
    if arrivals.len() == 0 {
        list
    } else {
        added_all(gathered(list, arrivals.drop_last()), arrivals.last())
    }
}

/// What is gathered holds each item once, and holds exactly the old items and those that arrive.
pub proof fn lemma_gathered(list: Seq<Seq<char>>, arrivals: Seq<Seq<Seq<char>>>)
    requires
        list.no_duplicates(),
    ensures
        gathered(list, arrivals).no_duplicates(),
        forall|item: Seq<char>| #[trigger]
            gathered(list, arrivals).contains(item) <==> list.contains(item) || exists|i: int|
                0 <= i < arrivals.len() && (#[trigger] arrivals[i]).contains(item),
    decreases arrivals.len(),
{
    if arrivals.len() > 0 {
        let front = arrivals.drop_last();
        lemma_gathered(list, front);
        lemma_added_all(gathered(list, front), arrivals.last());
        assert forall|item: Seq<char>| #[trigger]
            gathered(list, arrivals).contains(item) <==> list.contains(item) || exists|i: int|
                0 <= i < arrivals.len() && (#[trigger] arrivals[i]).contains(item) by {
            if exists|i: int| 0 <= i < front.len() && (#[trigger] front[i]).contains(item) {
                let i = choose|i: int| 0 <= i < front.len() && (#[trigger] front[i]).contains(item);
                assert(arrivals[i].contains(item));
            }
            if arrivals.last().contains(item) {
                assert(arrivals[arrivals.len() - 1].contains(item));
            }
            if exists|i: int| 0 <= i < arrivals.len() && (#[trigger] arrivals[i]).contains(item) {
                let i = choose|i: int|
                    0 <= i < arrivals.len() && (#[trigger] arrivals[i]).contains(item);
                if i < front.len() {
                    assert(front[i].contains(item));
                }
            }
        }
    }
}

/// Neither the set of the items that are gathered nor their number depends on the order in which the
/// lists arrive.
pub proof fn lemma_gathered_any_order(
    list: Seq<Seq<char>>,
    one: Seq<Seq<Seq<char>>>,
    other: Seq<Seq<Seq<char>>>,
)
    requires
        list.no_duplicates(),
        one.to_multiset() == other.to_multiset(),
    ensures
        gathered(list, one).to_set() == gathered(list, other).to_set(),
        gathered(list, one).len() == gathered(list, other).len(),
{
    let (a, b) = (gathered(list, one), gathered(list, other));
    lemma_gathered(list, one);
    lemma_gathered(list, other);
    lemma_arrived_elsewhere(one, other);
    lemma_arrived_elsewhere(other, one);
    assert forall|item: Seq<char>| a.to_set().contains(item) <==> #[trigger] b.to_set().contains(
        item,
    ) by {
        assert(a.contains(item) <==> b.contains(item));
    }
    assert(a.to_set() =~= b.to_set());
    a.unique_seq_to_set();
    b.unique_seq_to_set();
}

/// What arrives in one order arrives in the other.
proof fn lemma_arrived_elsewhere(one: Seq<Seq<Seq<char>>>, other: Seq<Seq<Seq<char>>>)
    requires
        one.to_multiset() == other.to_multiset(),
    ensures
        forall|item: Seq<char>, i: int|
            0 <= i < one.len() && #[trigger] one[i].contains(item) ==> exists|k: int|
                0 <= k < other.len() && (#[trigger] other[k]).contains(item),
{
    one.to_multiset_ensures();
    other.to_multiset_ensures();
    assert forall|item: Seq<char>, i: int|
        0 <= i < one.len() && #[trigger] one[i].contains(item) implies exists|k: int|
        0 <= k < other.len() && (#[trigger] other[k]).contains(item) by {
        assert(one.contains(one[i]));
        assert(one.to_multiset().count(one[i]) > 0);
        assert(other.contains(one[i]));
        let k = choose|k: int| 0 <= k < other.len() && other[k] == one[i];
        assert(other[k].contains(item));
    }
}

/// A growing list of addresses in which none occurs twice, in the order in which they came.
pub struct AddressSet {
    order: Vec<String>,
    seen: StringHashSet,
}

impl View for AddressSet {
    type V = Seq<Seq<char>>;

    closed spec fn view(&self) -> Seq<Seq<char>> {
        texts(self.order@)
    }
}

impl AddressSet {
    /// No address occurs twice, and the index knows exactly those that occur.
    pub closed spec fn well_formed(&self) -> bool {
        &&& texts(self.order@).no_duplicates()
        &&& forall|text: Seq<char>| #[trigger]
            self.seen@.contains(text) <==> texts(self.order@).contains(text)
    }

    /// In a well-formed list no address occurs twice.
    pub proof fn lemma_distinct(&self)
        requires
            self.well_formed(),
        ensures
            self@.no_duplicates(),
    {
    }

    /// The empty list.
    pub fn new() -> (set: AddressSet)
        ensures
            set.well_formed(),
            set@ == Seq::<Seq<char>>::empty(),
    {
        let set: AddressSet = AddressSet { order: Vec::new(), seen: StringHashSet::new() };
        assert(set@ =~= Seq::<Seq<char>>::empty());
        set
    }

    /// Adds an address, unless it is there already.
    pub fn insert(&mut self, address: String)
        requires
            old(self).well_formed(),
        ensures
            final(self).well_formed(),
            final(self)@ == added(old(self)@, address@),
    {
        let ghost before = texts(self.order@);
        if !self.seen.contains(address.as_str()) {
            self.seen.insert(address.clone());
            self.order.push(address);
            let ghost after = texts(self.order@);
            proof {
                assert(after =~= before.push(address@));
                assert forall|text: Seq<char>| #[trigger]
                    self.seen@.contains(text) <==> after.contains(text) by {
                    if before.contains(text) {
                        let k = choose|k: int| 0 <= k < before.len() && before[k] == text;
                        assert(after[k] == text);
                    }
                    if text == address@ {
                        assert(after[after.len() - 1] == text);
                    }
                    if after.contains(text) && text != address@ {
                        let k = choose|k: int| 0 <= k < after.len() && after[k] == text;
                        assert(before[k] == text);
                    }
                }
            }
        }
    }

    /// Adds each of the addresses that is not there already, in their order.
    pub fn insert_all(&mut self, addresses: Vec<String>)
        requires
            old(self).well_formed(),
        ensures
            final(self).well_formed(),
            final(self)@ == added_all(old(self)@, texts(addresses@)),
    {
        let ghost items = texts(addresses@);
        let ghost before = self@;
        let mut i: usize = 0;
        assert(items.take(0) =~= Seq::<Seq<char>>::empty());
        while i < addresses.len()
            invariant
                i <= addresses.len(),
                items == texts(addresses@),
                self.well_formed(),
                self@ == added_all(before, items.take(i as int)),
            decreases addresses.len() - i,
        {
            self.insert(addresses[i].clone());
            assert(items.take(i + 1).drop_last() =~= items.take(i as int));
            assert(items.take(i + 1).last() == addresses@[i as int]@);
            i += 1;
        }
        assert(items.take(i as int) =~= items);
    }

    /// How many addresses there are.
    pub fn len(&self) -> (count: usize)
        ensures
            count == self@.len(),
    {
        self.order.len()
    }

    /// The addresses, in the order in which they came.
    pub fn addresses(&self) -> (list: &Vec<String>)
        ensures
            texts(list@) == self@,
    {
        &self.order
    }
}

} // verus!
