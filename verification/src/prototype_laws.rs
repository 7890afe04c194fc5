use crate::pc_writer::{first_type, has_kind, is_first, prototype_valid};
use crate::record::{Record, RecordDataType, RecordName};
use vstd::prelude::*;

verus! {

/// Each kind number stands for exactly one record name, in the order of the standard's
/// attribute list, with all extension attributes sharing the last number.
pub proof fn lemma_kind_names(n: RecordName)
    ensures
        (n.kind() == 0) == (n is CartesianX),
        (n.kind() == 1) == (n is CartesianY),
        (n.kind() == 2) == (n is CartesianZ),
        (n.kind() == 3) == (n is CartesianInvalidState),
        (n.kind() == 4) == (n is SphericalRange),
        (n.kind() == 5) == (n is SphericalAzimuth),
        (n.kind() == 6) == (n is SphericalElevation),
        (n.kind() == 7) == (n is SphericalInvalidState),
        (n.kind() == 8) == (n is Intensity),
        (n.kind() == 9) == (n is IsIntensityInvalid),
        (n.kind() == 10) == (n is ColorRed),
        (n.kind() == 11) == (n is ColorGreen),
        (n.kind() == 12) == (n is ColorBlue),
        (n.kind() == 13) == (n is IsColorInvalid),
        (n.kind() == 14) == (n is RowIndex),
        (n.kind() == 15) == (n is ColumnIndex),
        (n.kind() == 16) == (n is ReturnCount),
        (n.kind() == 17) == (n is ReturnIndex),
        (n.kind() == 18) == (n is TimeStamp),
        (n.kind() == 19) == (n is IsTimeStampInvalid),
        (n.kind() == 20) == (n is Unknown),
{
}

/// Each standard record is written under the attribute name that the E57 standard gives it;
/// together with the tag round trip, reading that name gives the record back.
pub proof fn lemma_tag_names(n: RecordName)
    ensures
        n is CartesianX ==> n.tag_view() == "cartesianX"@,
        n is CartesianY ==> n.tag_view() == "cartesianY"@,
        n is CartesianZ ==> n.tag_view() == "cartesianZ"@,
        n is CartesianInvalidState ==> n.tag_view() == "cartesianInvalidState"@,
        n is SphericalRange ==> n.tag_view() == "sphericalRange"@,
        n is SphericalAzimuth ==> n.tag_view() == "sphericalAzimuth"@,
        n is SphericalElevation ==> n.tag_view() == "sphericalElevation"@,
        n is SphericalInvalidState ==> n.tag_view() == "sphericalInvalidState"@,
        n is Intensity ==> n.tag_view() == "intensity"@,
        n is IsIntensityInvalid ==> n.tag_view() == "isIntensityInvalid"@,
        n is ColorRed ==> n.tag_view() == "colorRed"@,
        n is ColorGreen ==> n.tag_view() == "colorGreen"@,
        n is ColorBlue ==> n.tag_view() == "colorBlue"@,
        n is IsColorInvalid ==> n.tag_view() == "isColorInvalid"@,
        n is RowIndex ==> n.tag_view() == "rowIndex"@,
        n is ColumnIndex ==> n.tag_view() == "columnIndex"@,
        n is ReturnCount ==> n.tag_view() == "returnCount"@,
        n is ReturnIndex ==> n.tag_view() == "returnIndex"@,
        n is TimeStamp ==> n.tag_view() == "timeStamp"@,
        n is IsTimeStampInvalid ==> n.tag_view() == "isTimeStampInvalid"@,
{
}

/// The prototype has a record with a time stamp.
pub open spec fn has_time_stamp(p: Seq<Record>) -> bool {
    exists|i: int| 0 <= i < p.len() && (#[trigger] p[i]).name is TimeStamp
}

/// The prototype has a record that flags invalid time stamps.
pub open spec fn has_time_stamp_flag(p: Seq<Record>) -> bool {
    exists|i: int| 0 <= i < p.len() && (#[trigger] p[i]).name is IsTimeStampInvalid
}

/// A prototype of Cartesian coordinates, with or without time stamps, can be written: where
/// every record is `cartesianX`, `cartesianY`, `cartesianZ` or `timeStamp`, of any type, and
/// each coordinate is there, the prototype is valid. A time stamp needs no flag.
pub proof fn lemma_cartesian_time_stamp_valid(p: Seq<Record>)
    requires
        forall|i: int|
            0 <= i < p.len() ==> ((#[trigger] p[i]).name is CartesianX || p[i].name is CartesianY
                || p[i].name is CartesianZ || p[i].name is TimeStamp),
        exists|i: int| 0 <= i < p.len() && (#[trigger] p[i]).name is CartesianX,
        exists|i: int| 0 <= i < p.len() && (#[trigger] p[i]).name is CartesianY,
        exists|i: int| 0 <= i < p.len() && (#[trigger] p[i]).name is CartesianZ,
    ensures
        prototype_valid(p),
{
    let x = choose|i: int| 0 <= i < p.len() && (#[trigger] p[i]).name is CartesianX;
    let y = choose|i: int| 0 <= i < p.len() && (#[trigger] p[i]).name is CartesianY;
    let z = choose|i: int| 0 <= i < p.len() && (#[trigger] p[i]).name is CartesianZ;
    assert(p[x].name.kind() == 0);
    assert(p[y].name.kind() == 1);
    assert(p[z].name.kind() == 2);
    assert forall|k: int| k != 0 && k != 1 && k != 2 && k != 18 implies !has_kind(p, k) by {
        if has_kind(p, k) {
            let i = choose|i: int| 0 <= i < p.len() && #[trigger] p[i].name.kind() == k;
            assert(p[i].name is CartesianX || p[i].name is CartesianY || p[i].name is CartesianZ || p[i].name is TimeStamp);
        }
    }
    assert(!has_kind(p, 3));
    assert(!has_kind(p, 4));
    assert(!has_kind(p, 5));
    assert(!has_kind(p, 6));
    assert(!has_kind(p, 7));
    assert(!has_kind(p, 9));
    assert(!has_kind(p, 10));
    assert(!has_kind(p, 11));
    assert(!has_kind(p, 12));
    assert(!has_kind(p, 13));
    assert(!has_kind(p, 14));
    assert(!has_kind(p, 15));
    assert(!has_kind(p, 16));
    assert(!has_kind(p, 17));
    assert(!has_kind(p, 19));
}

/// A valid prototype with a flag for invalid time stamps also has the time stamps; whether it
/// has time stamps is what a `timeStamp` record says, and whether it has the flag what an
/// `isTimeStampInvalid` record says.
pub proof fn lemma_time_stamp_flag_needs_time_stamp(p: Seq<Record>)
    ensures
        has_kind(p, 18) == has_time_stamp(p),
        has_kind(p, 19) == has_time_stamp_flag(p),
        prototype_valid(p) && has_time_stamp_flag(p) ==> has_time_stamp(p),
{
    if has_kind(p, 18) {
        let i = choose|i: int| 0 <= i < p.len() && #[trigger] p[i].name.kind() == 18;
        assert(p[i].name is TimeStamp);
    }
    if has_time_stamp(p) {
        let i = choose|i: int| 0 <= i < p.len() && (#[trigger] p[i]).name is TimeStamp;
        assert(p[i].name.kind() == 18);
    }
    if has_kind(p, 19) {
        let i = choose|i: int| 0 <= i < p.len() && #[trigger] p[i].name.kind() == 19;
        assert(p[i].name is IsTimeStampInvalid);
    }
    if has_time_stamp_flag(p) {
        let i = choose|i: int| 0 <= i < p.len() && (#[trigger] p[i]).name is IsTimeStampInvalid;
        assert(p[i].name.kind() == 19);
    }
}


/// The prototype has a record with the name `n`.
pub open spec fn named(p: Seq<Record>, n: RecordName) -> bool {
    exists|i: int| 0 <= i < p.len() && (#[trigger] p[i]).name == n
}

/// Index `i` holds the first record with the name `n`.
pub open spec fn first_named(p: Seq<Record>, n: RecordName, i: int) -> bool {
    &&& 0 <= i < p.len()
    &&& p[i].name == n
    &&& forall|j: int| 0 <= j < i ==> (#[trigger] p[j]).name != n
}

/// The data type of the first record with the name `n`, if there is one.
pub open spec fn named_type(p: Seq<Record>, n: RecordName) -> Option<RecordDataType> {
    if named(p, n) {
        Some(p[choose|i: int| first_named(p, n, i)].data_type)
    } else {
        None
    }
}

/// The data type is there and an integer type with these limits.
pub open spec fn int_type(t: Option<RecordDataType>, min: i64, max: i64) -> bool {
    t == Some(RecordDataType::Integer { min, max })
}

/// The data type, where there is one, is an integer type.
pub open spec fn int_or_absent(t: Option<RecordDataType>) -> bool {
    match t {
        Some(RecordDataType::Integer { .. }) => true,
        Some(_) => false,
        None => true,
    }
}

/// The rules a prototype must meet to be written, over the names of its records: Cartesian
/// coordinates, spherical coordinates and colours each come whole or not at all; there are
/// Cartesian or spherical coordinates; each invalid flag needs what it flags and is an
/// integer between 0 and 2 (coordinates) or 0 and 1 (the others); azimuth and elevation are
/// not integers; row, column, return count and return index are integers, and return count
/// and return index come together.
pub open spec fn prototype_rules(p: Seq<Record>) -> bool {
    &&& named(p, RecordName::CartesianX) == named(p, RecordName::CartesianY)
    &&& named(p, RecordName::CartesianY) == named(p, RecordName::CartesianZ)
    &&& named(p, RecordName::CartesianInvalidState) ==> named(p, RecordName::CartesianX) && int_type(
        named_type(p, RecordName::CartesianInvalidState),
        0,
        2,
    )
    &&& named(p, RecordName::SphericalAzimuth) == named(p, RecordName::SphericalElevation)
    &&& named(p, RecordName::SphericalElevation) == named(p, RecordName::SphericalRange)
    &&& named(p, RecordName::SphericalInvalidState) ==> named(p, RecordName::SphericalAzimuth) && int_type(
        named_type(p, RecordName::SphericalInvalidState),
        0,
        2,
    )
    &&& !(named_type(p, RecordName::SphericalAzimuth) matches Some(RecordDataType::Integer { .. }))
    &&& !(named_type(p, RecordName::SphericalElevation) matches Some(RecordDataType::Integer { .. }))
    &&& named(p, RecordName::CartesianX) || named(p, RecordName::SphericalAzimuth)
    &&& named(p, RecordName::ColorRed) == named(p, RecordName::ColorGreen)
    &&& named(p, RecordName::ColorGreen) == named(p, RecordName::ColorBlue)
    &&& named(p, RecordName::IsColorInvalid) ==> named(p, RecordName::ColorRed) && int_type(
        named_type(p, RecordName::IsColorInvalid),
        0,
        1,
    )
    &&& int_or_absent(named_type(p, RecordName::ReturnCount))
    &&& int_or_absent(named_type(p, RecordName::ReturnIndex))
    &&& named(p, RecordName::ReturnCount) == named(p, RecordName::ReturnIndex)
    &&& int_or_absent(named_type(p, RecordName::RowIndex))
    &&& int_or_absent(named_type(p, RecordName::ColumnIndex))
    &&& named(p, RecordName::IsIntensityInvalid) ==> named(p, RecordName::Intensity) && int_type(
        named_type(p, RecordName::IsIntensityInvalid),
        0,
        1,
    )
    &&& named(p, RecordName::IsTimeStampInvalid) ==> named(p, RecordName::TimeStamp) && int_type(
        named_type(p, RecordName::IsTimeStampInvalid),
        0,
        1,
    )
}

/// For a standard record name of kind `k`, having the kind is having the name, and the first
/// record of the kind is the first record with the name.
proof fn lemma_kind_is_name(p: Seq<Record>, n: RecordName, k: int)
    requires
        !(n is Unknown),
        n.kind() == k,
    ensures
        has_kind(p, k) == named(p, n),
        first_type(p, k) == named_type(p, n),
{
    assert forall|m: RecordName| (#[trigger] m.kind() == k) == (m == n) by {
        lemma_kind_names(m);
        lemma_kind_names(n);
    }
    if has_kind(p, k) {
        let i = choose|i: int| 0 <= i < p.len() && #[trigger] p[i].name.kind() == k;
        assert(p[i].name == n);
    }
    if named(p, n) {
        let i = choose|i: int| 0 <= i < p.len() && (#[trigger] p[i]).name == n;
        assert(p[i].name.kind() == k);
        // The first index of the kind is the first index of the name.
        let a = choose|i: int| is_first(p, k, i);
        let b = choose|i: int| first_named(p, n, i);
        let mut f: int = 0;
        assert(exists|i: int| first_named(p, n, i)) by {
            lemma_first_named_exists(p, n, i);
        }
        assert(first_named(p, n, b));
        assert(is_first(p, k, b)) by {
            assert forall|j: int| 0 <= j < b implies #[trigger] p[j].name.kind() != k by {
                assert(p[j].name != n);
            }
        }
        assert(is_first(p, k, a));
        if a < b {
            assert(p[a].name == n);
        } else if b < a {
            assert(p[b].name.kind() == k);
        }
    }
}

/// Where some record has the name `n`, a first one has.
proof fn lemma_first_named_exists(p: Seq<Record>, n: RecordName, i: int)
    requires
        0 <= i < p.len(),
        p[i].name == n,
    ensures
        exists|j: int| first_named(p, n, j),
    decreases i,
{
    if forall|j: int| 0 <= j < i ==> (#[trigger] p[j]).name != n {
        assert(first_named(p, n, i));
    } else {
        let j = choose|j: int| 0 <= j < i && (#[trigger] p[j]).name == n;
        lemma_first_named_exists(p, n, j);
    }
}

/// A prototype is accepted for writing exactly where it meets the rules stated over the names
/// of its records.
pub proof fn lemma_prototype_rules(p: Seq<Record>)
    ensures
        prototype_valid(p) == prototype_rules(p),
{
    lemma_kind_is_name(p, RecordName::CartesianX, 0);
    lemma_kind_is_name(p, RecordName::CartesianY, 1);
    lemma_kind_is_name(p, RecordName::CartesianZ, 2);
    lemma_kind_is_name(p, RecordName::CartesianInvalidState, 3);
    lemma_kind_is_name(p, RecordName::SphericalRange, 4);
    lemma_kind_is_name(p, RecordName::SphericalAzimuth, 5);
    lemma_kind_is_name(p, RecordName::SphericalElevation, 6);
    lemma_kind_is_name(p, RecordName::SphericalInvalidState, 7);
    lemma_kind_is_name(p, RecordName::Intensity, 8);
    lemma_kind_is_name(p, RecordName::IsIntensityInvalid, 9);
    lemma_kind_is_name(p, RecordName::ColorRed, 10);
    lemma_kind_is_name(p, RecordName::ColorGreen, 11);
    lemma_kind_is_name(p, RecordName::ColorBlue, 12);
    lemma_kind_is_name(p, RecordName::IsColorInvalid, 13);
    lemma_kind_is_name(p, RecordName::RowIndex, 14);
    lemma_kind_is_name(p, RecordName::ColumnIndex, 15);
    lemma_kind_is_name(p, RecordName::ReturnCount, 16);
    lemma_kind_is_name(p, RecordName::ReturnIndex, 17);
    lemma_kind_is_name(p, RecordName::TimeStamp, 18);
    lemma_kind_is_name(p, RecordName::IsTimeStampInvalid, 19);
}

} // verus!
