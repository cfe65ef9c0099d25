//! Ownership of a fixed set of cells: who holds which, with no cell left over
//! and none held twice.

use vstd::prelude::*;
use vstd::set_lib::lemma_int_range;
use vstd::set_lib::lemma_subset_equality;
use vstd::set_lib::set_int_range;

verus! {

/// `owners` lists, holder by holder, the cells `0 .. cells`: one entry per
/// cell, each entry a cell, and no cell listed twice.
pub open spec fn partitioned(owners: Seq<int>, cells: nat) -> bool {
    &&& owners.len() == cells
    &&& forall|k: int| 0 <= k < owners.len() ==> 0 <= #[trigger] owners[k] < cells
    &&& owners.no_duplicates()
}

/// `owners` with the entries at `i` and `j` exchanged.
pub open spec fn exchanged(owners: Seq<int>, i: int, j: int) -> Seq<int> {
    owners.update(i, owners[j]).update(j, owners[i])
}

/// Where two holders exchange a cell each, the cells stay partitioned.
pub proof fn lemma_exchange_keeps_partition(owners: Seq<int>, i: int, j: int, cells: nat)
    requires
        partitioned(owners, cells),
        0 <= i < owners.len(),
        0 <= j < owners.len(),
    ensures
        partitioned(exchanged(owners, i, j), cells),
{
    let after = exchanged(owners, i, j);
    assert forall|a: int, b: int| 0 <= a < after.len() && 0 <= b < after.len() && a != b implies
        after[a] != after[b] by {
        let pa = if a == i {
            j
        } else if a == j {
            i
        } else {
            a
        };
        let pb = if b == i {
            j
        } else if b == j {
            i
        } else {
            b
        };
        assert(after[a] == owners[pa]);
        assert(after[b] == owners[pb]);
        assert(pa != pb);
    }
    assert forall|k: int| 0 <= k < after.len() implies 0 <= #[trigger] after[k] < cells by {
        let pk = if k == i {
            j
        } else if k == j {
            i
        } else {
            k
        };
        assert(after[k] == owners[pk]);
    }
}

/// In a partition every cell has a holder, and, as no cell is listed twice,
/// exactly one.
pub proof fn lemma_partition_covers(owners: Seq<int>, cells: nat)
    requires
        partitioned(owners, cells),
    ensures
        forall|c: int| 0 <= c < cells ==> owners.contains(c),
{
    let held = owners.to_set();
    let all = set_int_range(0, cells as int);
    lemma_int_range(0, cells as int);
    owners.unique_seq_to_set();
    assert(held.subset_of(all)) by {
        assert forall|c: int| held.contains(c) implies all.contains(c) by {
            let k = choose|k: int| 0 <= k < owners.len() && owners[k] == c;
            assert(0 <= owners[k] < cells);
        }
    }
    vstd::set_lib::lemma_len_subset(held, all);
    lemma_subset_equality(held, all);
    assert forall|c: int| 0 <= c < cells implies owners.contains(c) by {
        assert(all.contains(c));
        assert(held.contains(c));
    }
}

} // verus!
