use vstd::prelude::*;

verus! {

/// The container is sorted in non-decreasing order.
pub open spec fn sorted(s: Seq<i32>) -> bool {
    forall|i: int, j: int| 0 <= i <= j < s.len() ==> s[i] <= s[j]
}

/// Binary search algorithm.
/// Returns the leftmost position of the item to find.
/// It is necessary that the container is pre-sorted.
pub fn lower_bound(container: &Vec<i32>, key: &i32) -> (r: Option<usize>)
    requires
        sorted(container@),
    ensures
        match r {
            Some(idx) => {
                &&& idx < container@.len()
                &&& container@[idx as int] == *key
                &&& forall|i: int| 0 <= i < idx ==> container@[i] != *key
            },
            None => forall|i: int| 0 <= i < container@.len() ==> container@[i] != *key,
        },
{
    if container.is_empty() {
        return None;
    }
    let mut l: usize = 0;
    let mut r: usize = container.len() - 1;
    while l < r
        invariant
            sorted(container@),
            l <= r < container@.len(),
            forall|i: int| 0 <= i < l ==> container@[i] < *key,
            (exists|j: int| l <= j <= r && container@[j] == *key) || (forall|j: int|
                0 <= j < container@.len() ==> container@[j] != *key),
        decreases r - l,
    {
        let idx = l + (r - l) / 2;
        if container[idx] < *key {
            proof {
                if exists|j: int| l <= j <= r && container@[j] == *key {
                    let j = choose|j: int| l <= j <= r && container@[j] == *key;
                    assert(j > idx);
                }
            }
            l = idx + 1;
        } else {
            proof {
                if exists|j: int| l <= j <= r && container@[j] == *key {
                    let j = choose|j: int| l <= j <= r && container@[j] == *key;
                    if j > idx {
                        assert(container@[idx as int] == *key);
                    }
                }
            }
            r = idx;
        }
    }
    if container[l] == *key {
        Some(l)
    } else {
        None
    }
}

/// Binary search algorithm.
/// Returns the rightmost position of the item to find.
/// It is necessary that the container is pre-sorted.
pub fn upper_bound(container: &Vec<i32>, key: &i32) -> (r: Option<usize>)
    requires
        sorted(container@),
    ensures
        match r {
            Some(idx) => {
                &&& idx < container@.len()
                &&& container@[idx as int] == *key
                &&& forall|i: int| idx < i < container@.len() ==> container@[i] != *key
            },
            None => forall|i: int| 0 <= i < container@.len() ==> container@[i] != *key,
        },
{
    if container.is_empty() {
        return None;
    }
    let mut l: usize = 0;
    let mut r: usize = container.len() - 1;
    while l < r
        invariant
            sorted(container@),
            l <= r < container@.len(),
            forall|i: int| r < i < container@.len() ==> container@[i] > *key,
            (exists|j: int| l <= j <= r && container@[j] == *key) || (forall|j: int|
                0 <= j < container@.len() ==> container@[j] != *key),
        decreases r - l,
    {
        let idx = r - (r - l) / 2;
        if container[idx] <= *key {
            proof {
                if exists|j: int| l <= j <= r && container@[j] == *key {
                    let j = choose|j: int| l <= j <= r && container@[j] == *key;
                    if j < idx {
                        assert(container@[idx as int] == *key);
                    }
                }
            }
            l = idx;
        } else {
            proof {
                if exists|j: int| l <= j <= r && container@[j] == *key {
                    let j = choose|j: int| l <= j <= r && container@[j] == *key;
                    assert(j < idx);
                }
            }
            r = idx - 1;
        }
    }
    if container[l] == *key {
        Some(l)
    } else {
        None
    }
}

} // verus!
