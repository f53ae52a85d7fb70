use vstd::prelude::*;

verus! {

/// Index of the first occurrence of `key` in `list`, if any.
pub fn position_of(list: &Vec<u64>, key: u64) -> (res: Option<usize>)
    ensures
        res is Some <==> list@.index_of_first(key) is Some,
        res is Some ==> list@.index_of_first(key) == Some(res->0 as int),
        match res {
            Some(i) => i < list.len() && list@[i as int] == key && forall|j: int|
                0 <= j < i ==> list@[j] != key,
            None => !list@.contains(key),
        },
{
    let mut i: usize = 0;
    while i < list.len()
        invariant
            i <= list.len(),
            forall|j: int| 0 <= j < i ==> list@[j] != key,
        decreases list.len() - i,
    {
        if list[i] == key {
            proof {
                list@.index_of_first_ensures(key);
                match list@.index_of_first(key) {
                    Some(k) => {
                        assert(k == i as int);
                    },
                    None => {
                        assert(list@.contains(key));
                    },
                }
            }
            return Some(i);
        }
        i += 1;
    }
    proof {
        list@.index_of_first_ensures(key);
        if list@.contains(key) {
            let k = choose|k: int| 0 <= k < list@.len() && list@[k] == key;
            assert(list@[k] != key);
        }
    }
    None
}

} // verus!
