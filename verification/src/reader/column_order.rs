//! Kept columns that are named in rising order go to the slots in the order
//! of the fields.

use vstd::prelude::*;
use crate::reader::line_lemmas::lemma_find_from;
use crate::reader::line_model::{Rules, find_from, kept_fields};
use crate::reader::row_shape::{slots_upto, valid_cols};

verus! {

/// The kept columns are named in rising order.
pub open spec fn rising(cols: Seq<int>) -> bool {
    forall|i: int, j: int| 0 <= i < j < cols.len() ==> #[trigger] cols[i] < #[trigger] cols[j]
}

/// The slots 1 to `n`, in that order.
pub open spec fn in_order(n: int) -> Seq<int> {
    Seq::new(n as nat, |i: int| i + 1)
}

/// The number of kept columns among the first `k` fields of a line, where
/// the columns are named in rising order: the first index from `i` on at
/// which `cols` holds a field behind `k`.
pub open spec fn kept_upto(cols: Seq<int>, k: int, i: int) -> int
    decreases cols.len() - i,
{
    if i < 0 || i >= cols.len() {
        cols.len() as int
    } else if cols[i] > k {
        i
    } else {
        kept_upto(cols, k, i + 1)
    }
}

/// Where the first column behind field `k` is named.
pub proof fn lemma_kept_upto(cols: Seq<int>, k: int, i: int)
    requires
        rising(cols),
        0 <= i <= cols.len(),
    ensures
        i <= kept_upto(cols, k, i) <= cols.len(),
        forall|j: int| i <= j < kept_upto(cols, k, i) ==> #[trigger] cols[j] <= k,
        forall|j: int| kept_upto(cols, k, i) <= j < cols.len() ==> #[trigger] cols[j] > k,
    decreases cols.len() - i,
{
    if i < cols.len() {
        if cols[i] > k {
            assert forall|j: int| i <= j < cols.len() implies #[trigger] cols[j] > k by {
                if i < j {
                    assert(cols[i] < cols[j]);
                }
            }
        } else {
            lemma_kept_upto(cols, k, i + 1);
        }
    }
}

/// Without a column filter, the first `k` fields go to the slots 1 to `k`.
pub proof fn lemma_slots_plain(r: Rules, k: int)
    requires
        r.cols.len() == 0,
        0 <= k <= r.tot_fields,
    ensures
        slots_upto(r, k) == in_order(k),
    decreases k,
{
    if k > 0 {
        lemma_slots_plain(r, k - 1);
        assert(in_order(k - 1).push(k) =~= in_order(k));
    } else {
        assert(slots_upto(r, k) =~= in_order(k));
    }
}

/// With columns named in rising order, the kept ones among the first `k`
/// fields go to the first slots, in order.
pub proof fn lemma_slots_rising(r: Rules, k: int)
    requires
        valid_cols(r),
        rising(r.cols),
        r.cols.len() > 0,
        0 <= k,
    ensures
        slots_upto(r, k) == in_order(kept_upto(r.cols, k, 0)),
    decreases k,
{
    lemma_kept_upto(r.cols, k, 0);
    if k > 0 {
        lemma_slots_rising(r, k - 1);
        lemma_kept_upto(r.cols, k - 1, 0);
        lemma_find_from(r.cols, k, 0);
        let before = kept_upto(r.cols, k - 1, 0);
        let now = kept_upto(r.cols, k, 0);
        let p = find_from(r.cols, k, 0);
        if p < r.cols.len() {
            // Field k is kept: it is named at p, all before p are lower.
            assert(before == p) by {
                if before < p {
                    assert(r.cols[before] > k - 1);
                    assert(r.cols[before] < r.cols[p]);
                }
                if before > p {
                    assert(r.cols[p] <= k - 1);
                }
            }
            assert(now == p + 1) by {
                if now <= p {
                    assert(r.cols[p] > k);
                }
                if now > p + 1 {
                    assert(r.cols[p + 1] <= k);
                    assert(r.cols[p] < r.cols[p + 1]);
                }
            }
            assert(in_order(before).push(p + 1) =~= in_order(now));
        } else {
            assert(now == before) by {
                if before < now {
                    assert(r.cols[before] <= k);
                    assert(r.cols[before] > k - 1);
                }
                if now < before {
                    assert(r.cols[now] > k);
                    assert(r.cols[now] <= k - 1);
                }
            }
        }
    } else {
        assert(kept_upto(r.cols, 0, 0) == 0) by {
            if kept_upto(r.cols, 0, 0) > 0 {
                assert(r.cols[0] <= 0);
            }
        }
        assert(slots_upto(r, k) =~= in_order(0));
    }
}

/// Without a column filter, or with columns named in rising order, the kept
/// fields of a line go to the slots in the order of the fields.
pub proof fn lemma_slots_in_order(r: Rules)
    requires
        valid_cols(r),
        rising(r.cols),
    ensures
        slots_upto(r, r.tot_fields) == in_order(kept_fields(r)),
{
    if r.cols.len() == 0 {
        lemma_slots_plain(r, r.tot_fields);
    } else {
        lemma_slots_rising(r, r.tot_fields);
        lemma_kept_upto(r.cols, r.tot_fields, 0);
        let n = kept_upto(r.cols, r.tot_fields, 0);
        if n < r.cols.len() {
            assert(r.cols[n] > r.tot_fields);
        }
    }
}

} // verus!
