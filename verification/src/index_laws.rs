use crate::bounds::IndexBounds;
use crate::cv_writer::bounds_with;
use crate::record::{Record, RecordName, RecordValue};
use vstd::prelude::*;

verus! {

/// A lower bound that is there and at most `v`.
pub open spec fn at_most(m: Option<i64>, v: i64) -> bool {
    match m {
        Some(x) => x <= v,
        None => false,
    }
}

/// An upper bound that is there and at least `v`.
pub open spec fn at_least(m: Option<i64>, v: i64) -> bool {
    match m {
        Some(x) => x >= v,
        None => false,
    }
}

/// The index bounds track the return indices: after the values of the first `n` records of a
/// point are taken in, the return minimum and maximum enclose every integer value of a
/// record named `returnIndex`, each of them is the earlier bound or such a value, and they are
/// unchanged where no record is named `returnIndex`. Values of other records, such as the
/// return count, do not move them.
pub proof fn lemma_return_bounds(b: IndexBounds, proto: Seq<Record>, vals: Seq<RecordValue>, n: int)
    requires
        0 <= n <= proto.len(),
        n <= vals.len(),
    ensures
        ({
            let r = bounds_with(b, proto, vals, n);
            &&& forall|i: int|
                0 <= i < n && (#[trigger] proto[i]).name is ReturnIndex ==> (vals[i] matches RecordValue::Integer(v)
                    ==> at_most(r.return_min, v) && at_least(r.return_max, v))
            &&& forall|x: i64|
                r.return_min == Some(x) ==> b.return_min == Some(x) || exists|i: int|
                    0 <= i < n && (#[trigger] proto[i]).name is ReturnIndex && vals[i] == RecordValue::Integer(x)
            &&& forall|x: i64|
                r.return_max == Some(x) ==> b.return_max == Some(x) || exists|i: int|
                    0 <= i < n && (#[trigger] proto[i]).name is ReturnIndex && vals[i] == RecordValue::Integer(x)
            &&& b.return_min matches Some(lo0) ==> at_most(r.return_min, lo0)
            &&& b.return_max matches Some(hi0) ==> at_least(r.return_max, hi0)
            &&& (forall|i: int| 0 <= i < n ==> !((#[trigger] proto[i]).name is ReturnIndex)) ==> r.return_min
                == b.return_min && r.return_max == b.return_max
        }),
    decreases n,
{
    if n > 0 {
        lemma_return_bounds(b, proto, vals, n - 1);
        let c = bounds_with(b, proto, vals, n - 1);
        let r = bounds_with(b, proto, vals, n);
        assert forall|x: i64| r.return_min == Some(x) implies b.return_min == Some(x) || exists|i: int|
            0 <= i < n && (#[trigger] proto[i]).name is ReturnIndex && vals[i] == RecordValue::Integer(x) by {
            if r.return_min != c.return_min {
                assert(proto[n - 1].name is ReturnIndex && vals[n - 1] == RecordValue::Integer(x));
            } else if !(b.return_min == Some(x)) {
                let i = choose|i: int|
                    0 <= i < n - 1 && (#[trigger] proto[i]).name is ReturnIndex && vals[i] == RecordValue::Integer(x);
                assert(0 <= i < n && proto[i].name is ReturnIndex && vals[i] == RecordValue::Integer(x));
            }
        }
        assert forall|x: i64| r.return_max == Some(x) implies b.return_max == Some(x) || exists|i: int|
            0 <= i < n && (#[trigger] proto[i]).name is ReturnIndex && vals[i] == RecordValue::Integer(x) by {
            if r.return_max != c.return_max {
                assert(proto[n - 1].name is ReturnIndex && vals[n - 1] == RecordValue::Integer(x));
            } else if !(b.return_max == Some(x)) {
                let i = choose|i: int|
                    0 <= i < n - 1 && (#[trigger] proto[i]).name is ReturnIndex && vals[i] == RecordValue::Integer(x);
                assert(0 <= i < n && proto[i].name is ReturnIndex && vals[i] == RecordValue::Integer(x));
            }
        }
        assert forall|i: int|
            0 <= i < n && (#[trigger] proto[i]).name is ReturnIndex implies (vals[i] matches RecordValue::Integer(v)
                ==> at_most(r.return_min, v) && at_least(r.return_max, v)) by {
            if i < n - 1 {
                assert(proto[i].name is ReturnIndex);
            }
        }
        if forall|i: int| 0 <= i < n ==> !((#[trigger] proto[i]).name is ReturnIndex) {
            assert(!(proto[n - 1].name is ReturnIndex));
            assert forall|i: int| 0 <= i < n - 1 implies !((#[trigger] proto[i]).name is ReturnIndex) by {
                assert(!(proto[i].name is ReturnIndex));
            }
        }
    }
}

/// The index bounds track the row indices: after the values of the first `n` records of a
/// point are taken in, the row minimum and maximum enclose every integer value of a
/// record named `rowIndex`, each of them is the earlier bound or such a value, and they are
/// unchanged where no record is named `rowIndex`. Values of other records do not move them.
pub proof fn lemma_row_bounds(b: IndexBounds, proto: Seq<Record>, vals: Seq<RecordValue>, n: int)
    requires
        0 <= n <= proto.len(),
        n <= vals.len(),
    ensures
        ({
            let r = bounds_with(b, proto, vals, n);
            &&& forall|i: int|
                0 <= i < n && (#[trigger] proto[i]).name is RowIndex ==> (vals[i] matches RecordValue::Integer(v)
                    ==> at_most(r.row_min, v) && at_least(r.row_max, v))
            &&& forall|x: i64|
                r.row_min == Some(x) ==> b.row_min == Some(x) || exists|i: int|
                    0 <= i < n && (#[trigger] proto[i]).name is RowIndex && vals[i] == RecordValue::Integer(x)
            &&& forall|x: i64|
                r.row_max == Some(x) ==> b.row_max == Some(x) || exists|i: int|
                    0 <= i < n && (#[trigger] proto[i]).name is RowIndex && vals[i] == RecordValue::Integer(x)
            &&& b.row_min matches Some(lo0) ==> at_most(r.row_min, lo0)
            &&& b.row_max matches Some(hi0) ==> at_least(r.row_max, hi0)
            &&& (forall|i: int| 0 <= i < n ==> !((#[trigger] proto[i]).name is RowIndex)) ==> r.row_min
                == b.row_min && r.row_max == b.row_max
        }),
    decreases n,
{
    if n > 0 {
        lemma_row_bounds(b, proto, vals, n - 1);
        let c = bounds_with(b, proto, vals, n - 1);
        let r = bounds_with(b, proto, vals, n);
        assert forall|x: i64| r.row_min == Some(x) implies b.row_min == Some(x) || exists|i: int|
            0 <= i < n && (#[trigger] proto[i]).name is RowIndex && vals[i] == RecordValue::Integer(x) by {
            if r.row_min != c.row_min {
                assert(proto[n - 1].name is RowIndex && vals[n - 1] == RecordValue::Integer(x));
            } else if !(b.row_min == Some(x)) {
                let i = choose|i: int|
                    0 <= i < n - 1 && (#[trigger] proto[i]).name is RowIndex && vals[i] == RecordValue::Integer(x);
                assert(0 <= i < n && proto[i].name is RowIndex && vals[i] == RecordValue::Integer(x));
            }
        }
        assert forall|x: i64| r.row_max == Some(x) implies b.row_max == Some(x) || exists|i: int|
            0 <= i < n && (#[trigger] proto[i]).name is RowIndex && vals[i] == RecordValue::Integer(x) by {
            if r.row_max != c.row_max {
                assert(proto[n - 1].name is RowIndex && vals[n - 1] == RecordValue::Integer(x));
            } else if !(b.row_max == Some(x)) {
                let i = choose|i: int|
                    0 <= i < n - 1 && (#[trigger] proto[i]).name is RowIndex && vals[i] == RecordValue::Integer(x);
                assert(0 <= i < n && proto[i].name is RowIndex && vals[i] == RecordValue::Integer(x));
            }
        }
        assert forall|i: int|
            0 <= i < n && (#[trigger] proto[i]).name is RowIndex implies (vals[i] matches RecordValue::Integer(v)
                ==> at_most(r.row_min, v) && at_least(r.row_max, v)) by {
            if i < n - 1 {
                assert(proto[i].name is RowIndex);
            }
        }
        if forall|i: int| 0 <= i < n ==> !((#[trigger] proto[i]).name is RowIndex) {
            assert(!(proto[n - 1].name is RowIndex));
            assert forall|i: int| 0 <= i < n - 1 implies !((#[trigger] proto[i]).name is RowIndex) by {
                assert(!(proto[i].name is RowIndex));
            }
        }
    }
}

/// The index bounds track the column indices: after the values of the first `n` records of a
/// point are taken in, the column minimum and maximum enclose every integer value of a
/// record named `columnIndex`, each of them is the earlier bound or such a value, and they are
/// unchanged where no record is named `columnIndex`. Values of other records do not move them.
pub proof fn lemma_column_bounds(b: IndexBounds, proto: Seq<Record>, vals: Seq<RecordValue>, n: int)
    requires
        0 <= n <= proto.len(),
        n <= vals.len(),
    ensures
        ({
            let r = bounds_with(b, proto, vals, n);
            &&& forall|i: int|
                0 <= i < n && (#[trigger] proto[i]).name is ColumnIndex ==> (vals[i] matches RecordValue::Integer(v)
                    ==> at_most(r.column_min, v) && at_least(r.column_max, v))
            &&& forall|x: i64|
                r.column_min == Some(x) ==> b.column_min == Some(x) || exists|i: int|
                    0 <= i < n && (#[trigger] proto[i]).name is ColumnIndex && vals[i] == RecordValue::Integer(x)
            &&& forall|x: i64|
                r.column_max == Some(x) ==> b.column_max == Some(x) || exists|i: int|
                    0 <= i < n && (#[trigger] proto[i]).name is ColumnIndex && vals[i] == RecordValue::Integer(x)
            &&& b.column_min matches Some(lo0) ==> at_most(r.column_min, lo0)
            &&& b.column_max matches Some(hi0) ==> at_least(r.column_max, hi0)
            &&& (forall|i: int| 0 <= i < n ==> !((#[trigger] proto[i]).name is ColumnIndex)) ==> r.column_min
                == b.column_min && r.column_max == b.column_max
        }),
    decreases n,
{
    if n > 0 {
        lemma_column_bounds(b, proto, vals, n - 1);
        let c = bounds_with(b, proto, vals, n - 1);
        let r = bounds_with(b, proto, vals, n);
        assert forall|x: i64| r.column_min == Some(x) implies b.column_min == Some(x) || exists|i: int|
            0 <= i < n && (#[trigger] proto[i]).name is ColumnIndex && vals[i] == RecordValue::Integer(x) by {
            if r.column_min != c.column_min {
                assert(proto[n - 1].name is ColumnIndex && vals[n - 1] == RecordValue::Integer(x));
            } else if !(b.column_min == Some(x)) {
                let i = choose|i: int|
                    0 <= i < n - 1 && (#[trigger] proto[i]).name is ColumnIndex && vals[i] == RecordValue::Integer(x);
                assert(0 <= i < n && proto[i].name is ColumnIndex && vals[i] == RecordValue::Integer(x));
            }
        }
        assert forall|x: i64| r.column_max == Some(x) implies b.column_max == Some(x) || exists|i: int|
            0 <= i < n && (#[trigger] proto[i]).name is ColumnIndex && vals[i] == RecordValue::Integer(x) by {
            if r.column_max != c.column_max {
                assert(proto[n - 1].name is ColumnIndex && vals[n - 1] == RecordValue::Integer(x));
            } else if !(b.column_max == Some(x)) {
                let i = choose|i: int|
                    0 <= i < n - 1 && (#[trigger] proto[i]).name is ColumnIndex && vals[i] == RecordValue::Integer(x);
                assert(0 <= i < n && proto[i].name is ColumnIndex && vals[i] == RecordValue::Integer(x));
            }
        }
        assert forall|i: int|
            0 <= i < n && (#[trigger] proto[i]).name is ColumnIndex implies (vals[i] matches RecordValue::Integer(v)
                ==> at_most(r.column_min, v) && at_least(r.column_max, v)) by {
            if i < n - 1 {
                assert(proto[i].name is ColumnIndex);
            }
        }
        if forall|i: int| 0 <= i < n ==> !((#[trigger] proto[i]).name is ColumnIndex) {
            assert(!(proto[n - 1].name is ColumnIndex));
            assert forall|i: int| 0 <= i < n - 1 implies !((#[trigger] proto[i]).name is ColumnIndex) by {
                assert(!(proto[i].name is ColumnIndex));
            }
        }
    }
}

} // verus!
