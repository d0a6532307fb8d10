//! Gathering the places of a list by key.

use vstd::prelude::*;

use crate::sorted::{Key, SortedMap};

verus! {

/// The places of a list that hold the key, in order.
pub open spec fn places_of<K>(list: Seq<K>, key: K) -> Seq<usize>
    decreases list.len(),
{
    if list.len() == 0 {
        Seq::empty()
    } else {
        let rest = places_of(list.drop_last(), key);
        if list.last() == key {
            rest.push((list.len() - 1) as usize)
        } else {
            rest
        }
    }
}

/// The gathered places are places of the list that hold the key, in
/// increasing order, and none is left out.
pub proof fn places_are_exact<K>(list: Seq<K>, key: K)
    requires
        list.len() <= usize::MAX,
    ensures
        forall|i: int|
            0 <= i < places_of(list, key).len() ==> (#[trigger] places_of(list, key)[i])
                < list.len() && list[places_of(list, key)[i] as int] == key,
        forall|i: int, j: int|
            0 <= i < j < places_of(list, key).len() ==> (#[trigger] places_of(list, key)[i]) < (
            #[trigger] places_of(list, key)[j]),
        forall|p: int|
            0 <= p < list.len() && #[trigger] list[p] == key ==> places_of(list, key).contains(
                p as usize,
            ),
        places_of(list, key).len() <= list.len(),
    decreases list.len(),
{
    if list.len() > 0 {
        let front = list.drop_last();
        places_are_exact(front, key);
        let rest = places_of(front, key);
        let all = places_of(list, key);
        assert forall|i: int| 0 <= i < all.len() implies (#[trigger] all[i]) < list.len()
            && list[all[i] as int] == key by {
            if i < rest.len() {
                assert(all[i] == rest[i]);
                assert(front[rest[i] as int] == key);
            }
        }
        assert forall|i: int, j: int| 0 <= i < j < all.len() implies (#[trigger] all[i]) < (
        #[trigger] all[j]) by {
            if j < rest.len() {
                assert(rest[i] < rest[j]);
            } else {
                assert(rest[i] < front.len());
            }
        }
        assert forall|p: int| 0 <= p < list.len() && #[trigger] list[p] == key implies all.contains(
            p as usize,
        ) by {
            if p < front.len() {
                assert(front[p] == key);
                let i = rest.index_of(p as usize);
                assert(rest.contains(p as usize));
                assert(all[i] == p as usize);
            } else {
                assert(all[all.len() - 1] == p as usize);
            }
        }
    }
}

/// The places of a list, gathered by key.
#[derive(Debug)]
pub struct Grouping<K> {
    pub groups: SortedMap<K, Vec<usize>>,
}

impl<K: Key + Copy> Grouping<K> {
    /// The grouping holds exactly the keys of the list, each with its places.
    pub open spec fn gathers(self, list: Seq<K>) -> bool {
        &&& self.groups.wf()
        &&& forall|key: K| #[trigger]
            self.groups@.dom().contains(key) <==> places_of(list, key).len() > 0
        &&& forall|key: K| #[trigger]
            self.groups@.dom().contains(key) ==> self.groups@[key]@ == places_of(list, key)
    }

    pub fn gather(list: &Vec<K>) -> (result: Grouping<K>)
        ensures
            result.gathers(list@),
    {
        let mut groups: SortedMap<K, Vec<usize>> = SortedMap::new();
        let mut i: usize = 0;
        while i < list.len()
            invariant
                i <= list.len(),
                groups.wf(),
                forall|key: K| #[trigger]
                    groups@.dom().contains(key) <==> places_of(list@.take(i as int), key).len()
                        > 0,
                forall|key: K| #[trigger]
                    groups@.dom().contains(key) ==> groups@[key]@ == places_of(
                        list@.take(i as int),
                        key,
                    ),
            decreases list.len() - i,
        {
            let key = list[i];
            let ghost before = groups@;
            let ghost short = list@.take(i as int);
            let ghost long = list@.take(i as int + 1);
            proof {
                assert(long.drop_last() =~= short);
                assert(long.last() == key);
            }
            let mut places: Vec<usize> = match groups.get(&key) {
                Some(found) => {
                    let copy = found.clone();
                    assert(copy@ =~= found@);
                    copy
                },
                None => Vec::new(),
            };
            proof {
                assert(places@ =~= places_of(short, key));
            }
            places.push(i);
            groups.insert(key, places);
            proof {
                assert forall|k: K| #[trigger]
                    groups@.dom().contains(k) <==> places_of(long, k).len() > 0 by {
                    assert(before.dom().contains(k) <==> places_of(short, k).len() > 0);
                }
                assert forall|k: K| #[trigger] groups@.dom().contains(k) implies groups@[k]@
                    == places_of(long, k) by {
                    if k != key {
                        assert(before.dom().contains(k));
                    }
                }
            }
            i = i + 1;
        }
        assert(list@.take(i as int) =~= list@);
        Grouping { groups }
    }

    /// The group at a place is that of its key.
    pub proof fn group_at(self, list: Seq<K>, place: int)
        requires
            self.gathers(list),
            0 <= place < self.groups.keys@.len(),
        ensures
            self.groups.values@[place]@ == places_of(list, self.groups.keys@[place]),
            self.groups.values@[place]@.len() > 0,
    {
        self.groups.entry_at(place);
    }
}

} // verus!
