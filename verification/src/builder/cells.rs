//! Lists of cell positions: finding a cell in a list and taking it out.

use vstd::prelude::*;

verus! {

/// A list of cells holds `p` if one of its entries names that position.
pub open spec fn listed(list: Seq<(usize, usize)>, cell: (usize, usize)) -> bool {
    exists|i: int| 0 <= i < list.len() && #[trigger] list[i] == cell
}

/// Taking the entry at index `i` out of a list without repetitions leaves a list without
/// repetitions that holds the other entries.
pub proof fn lemma_remove_index(list: Seq<(usize, usize)>, i: int)
    requires
        list.no_duplicates(),
        0 <= i < list.len(),
    ensures
        list.remove(i).no_duplicates(),
        list.remove(i).len() == list.len() - 1,
        forall|c: (usize, usize)|
            #[trigger] listed(list.remove(i), c) <==> (listed(list, c) && c != list[i]),
{
    let rest = list.remove(i);
    list.remove_ensures(i);
    assert forall|a: int, b: int|
        0 <= a < rest.len() && 0 <= b < rest.len() && a != b implies rest[a] != rest[b] by {
        let a0 = if a < i {
            a
        } else {
            a + 1
        };
        let b0 = if b < i {
            b
        } else {
            b + 1
        };
        assert(rest[a] == list[a0]);
        assert(rest[b] == list[b0]);
    }
    assert forall|c: (usize, usize)| #[trigger]
        listed(rest, c) <==> (listed(list, c) && c != list[i]) by {
        if listed(rest, c) {
            let a = choose|a: int| 0 <= a < rest.len() && #[trigger] rest[a] == c;
            let a0 = if a < i {
                a
            } else {
                a + 1
            };
            assert(rest[a] == list[a0]);
        }
        if listed(list, c) && c != list[i] {
            let a0 = choose|a: int| 0 <= a < list.len() && #[trigger] list[a] == c;
            let a = if a0 < i {
                a0
            } else {
                a0 - 1
            };
            assert(rest[a] == list[a0]);
        }
    }
}

/// Taking a cell out of a list without repetitions leaves a list without repetitions that
/// holds the other entries.
pub proof fn lemma_remove_value(list: Seq<(usize, usize)>, cell: (usize, usize))
    requires
        list.no_duplicates(),
    ensures
        list.remove_value(cell).no_duplicates(),
        list.remove_value(cell).len() == list.len() - (if listed(list, cell) {
            1int
        } else {
            0int
        }),
        forall|c: (usize, usize)|
            #[trigger] listed(list.remove_value(cell), c) <==> (listed(list, c) && c != cell),
{
    list.index_of_first_ensures(cell);
    match list.index_of_first(cell) {
        Some(i) => {
            lemma_remove_index(list, i);
        },
        None => {
            if listed(list, cell) {
                let i = choose|i: int| 0 <= i < list.len() && #[trigger] list[i] == cell;
                assert(list.contains(list[i]));
            }
        },
    }
}

/// The index of the first entry of the list that names `cell`, if there is one.
pub fn position(list: &Vec<(usize, usize)>, cell: (usize, usize)) -> (found: Option<usize>)
    ensures
        match found {
            Some(i) => i < list@.len() && list@[i as int] == cell && forall|j: int|
                0 <= j < i ==> list@[j] != cell,
            None => forall|j: int| 0 <= j < list@.len() ==> list@[j] != cell,
        },
        match found {
            Some(i) => list@.index_of_first(cell) == Some(i as int),
            None => list@.index_of_first(cell) is None,
        },
{
    let mut i: usize = 0;
    while i < list.len()
        invariant
            i <= list.len(),
            forall|j: int| 0 <= j < i ==> list@[j] != cell,
        decreases list.len() - i,
    {
        if list[i].0 == cell.0 && list[i].1 == cell.1 {
            proof {
                assert(list@[i as int] == cell);
                assert(list@.contains(cell));
                list@.index_of_first_ensures(cell);
            }
            return Some(i);
        }
        i += 1;
    }
    proof {
        list@.index_of_first_ensures(cell);
    }
    None
}

/// Takes the first entry that names `cell` out of the list, if there is one.
pub fn remove_cell(list: &mut Vec<(usize, usize)>, cell: (usize, usize))
    ensures
        final(list)@ == old(list)@.remove_value(cell),
{
    match position(list, cell) {
        Some(i) => {
            proof {
                list@.index_of_first_ensures(cell);
            }
            list.remove(i);
        },
        None => {},
    }
}

} // verus!
