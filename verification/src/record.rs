use crate::bit_seq::bit_at;
use crate::bs_write::{lemma_bit_len_growth, tail_clear, ByteStreamWriteBuffer};
use crate::error::{Error, Result};
use vstd::arithmetic::power2::*;
use vstd::prelude::*;
use crate::text::str_eq;

verus! {

/// Describes a record inside an E57 file with name and data type.
#[derive(Clone, Debug)]
pub struct Record {
    pub name: RecordName,
    pub data_type: RecordDataType,
}

/// Basic primitive E57 data types used for the point attributes.
///
/// Floating point limits are held as their IEEE 754 bit patterns.
#[derive(Clone, Copy, Debug, PartialEq, Eq, Structural)]
#[allow(inconsistent_fields)]
pub enum RecordDataType {
    /// 32-bit IEEE 754-2008 floating point value (bit patterns of the optional limits).
    Single { min: Option<u32>, max: Option<u32> },
    /// 64-bit IEEE 754-2008 floating point value (bit patterns of the optional limits).
    Double { min: Option<u64>, max: Option<u64> },
    /// Signed 64-bit integer scaled with a 64-bit floating point value (bit pattern of the scale).
    ScaledInteger { min: i64, max: i64, scale: u64 },
    /// Signed 64-bit integer value.
    Integer { min: i64, max: i64 },
}

/// Names of the point attributes of a point cloud prototype.
#[derive(Clone, Debug)]
pub enum RecordName {
    /// Cartesian X coordinate (in meters).
    CartesianX,
    /// Cartesian Y coordinate (in meters).
    CartesianY,
    /// Cartesian Z coordinate (in meters).
    CartesianZ,
    /// Whether the Cartesian coordinate or its magnitude is meaningful.
    CartesianInvalidState,
    /// Non-negative range (in meters) of the spherical coordinate.
    SphericalRange,
    /// Azimuth angle (in radians between -PI and PI) of the spherical coordinate.
    SphericalAzimuth,
    /// Elevation angle (in radians between -PI/2 and PI/2) of the spherical coordinate.
    SphericalElevation,
    /// Whether the spherical coordinate or its range is meaningful.
    SphericalInvalidState,
    /// Point intensity. Unit is not specified.
    Intensity,
    /// Whether the intensity value is meaningful.
    IsIntensityInvalid,
    /// Red color value. Unit is not specified.
    ColorRed,
    /// Green color value. Unit is not specified.
    ColorGreen,
    /// Blue color value. Unit is not specified.
    ColorBlue,
    /// Whether the color value is meaningful.
    IsColorInvalid,
    /// Row number of the point (zero-based).
    RowIndex,
    /// Column number of the point (zero-based).
    ColumnIndex,
    /// Total number of returns for the pulse that this point corresponds to.
    ReturnCount,
    /// Number of this return (zero based).
    ReturnIndex,
    /// Non-negative time (in seconds) since the acquisition start of the point cloud.
    TimeStamp,
    /// Whether the time stamp value is meaningful.
    IsTimeStampInvalid,
    /// Point attribute that is not part of the E57 standard.
    Unknown {
        /// XML namespace of the extension that defines this attribute.
        namespace: String,
        /// Name of the point attribute.
        name: String,
    },
}

/// A raw value of an attribute inside a point cloud.
///
/// Floating point values are held as their IEEE 754 bit patterns.
#[derive(Clone, Copy, Debug, PartialEq, Eq, Structural)]
pub enum RecordValue {
    Single(u32),
    Double(u64),
    ScaledInteger(i64),
    Integer(i64),
}

/// Number of bits needed to hold the values `0 ..= range`; zero for a range of zero or less.
pub open spec fn bits_needed(range: int) -> nat
    decreases range,
{
    if range <= 0 {
        0
    } else {
        1 + bits_needed(range / 2)
    }
}

/// A range needs `b` bits exactly when it lies in `2^(b-1) ..= 2^b - 1`.
pub proof fn lemma_bits_needed_bounds(range: int)
    requires
        range >= 1,
    ensures
        pow2((bits_needed(range) - 1) as nat) <= range < pow2(bits_needed(range)),
    decreases range,
{
    lemma2_to64();
    if range >= 2 {
        lemma_bits_needed_bounds(range / 2);
        let b = bits_needed(range / 2);
        assert(bits_needed(range) == 1 + b);
        assert(b >= 1);
        lemma_pow2_unfold(b);
        lemma_pow2_unfold((b + 1) as nat);
        assert(pow2(b) == 2 * pow2((b - 1) as nat));
        assert(pow2((b + 1) as nat) == 2 * pow2(b));
        assert(2 * (range / 2) <= range <= 2 * (range / 2) + 1);
    } else {
        assert(bits_needed(0) == 0);
        assert(bits_needed(1) == 1);
    }
}

/// Number of bits needed to store integers between `min` and `max`.
pub fn integer_bits(min: i64, max: i64) -> (r: usize)
    ensures
        r == bits_needed(max - min),
        r <= 64,
{
    let range: i128 = max as i128 - min as i128;
    let mut rest: i128 = range;
    let mut bits: usize = 0;
    proof {
        lemma_bits_needed_le_64(range as int);
    }
    while rest > 0
        invariant
            bits + bits_needed(rest as int) == bits_needed(range as int),
            bits_needed(range as int) <= 64,
        decreases rest,
    {
        rest = rest / 2;
        bits = bits + 1;
    }
    bits
}

proof fn lemma_bits_needed_le_64(range: int)
    requires
        range < 0x1_0000_0000_0000_0000,
    ensures
        bits_needed(range) <= 64,
{
    if range >= 1 {
        lemma_bits_needed_bounds(range);
        lemma2_to64();
        if bits_needed(range) > 65 {
            lemma_pow2_strictly_increases(64, (bits_needed(range) - 1) as nat);
        }
    }
}

/// Values of every data type occupy at most 64 bits.
pub(crate) proof fn lemma_bits_needed_le_64_all(t: RecordDataType)
    ensures
        t.bit_size_spec() <= 64,
{
    match t {
        RecordDataType::ScaledInteger { min, max, .. } => lemma_bits_needed_le_64(max - min),
        RecordDataType::Integer { min, max } => lemma_bits_needed_le_64(max - min),
        _ => {},
    }
}

/// The eight little-endian bytes of a `u64`.
pub open spec fn u64_le(v: u64) -> Seq<u8> {
    Seq::new(8, |i: int| ((v >> (8 * i) as u64) & 0xff) as u8)
}

/// The four little-endian bytes of a `u32`.
pub open spec fn u32_le(v: u32) -> Seq<u8> {
    Seq::new(4, |i: int| ((v >> (8 * i) as u32) & 0xff) as u8)
}

/// The eight little-endian bytes of a `u64`.
pub fn u64_to_le_bytes(v: u64) -> (r: Vec<u8>)
    ensures
        r@ == u64_le(v),
{
    let mut r: Vec<u8> = Vec::new();
    let mut i: u64 = 0;
    while i < 8
        invariant
            i <= 8,
            r@.len() == i,
            forall|k: int| 0 <= k < i ==> r@[k] == ((v >> (8 * k) as u64) & 0xff) as u8,
        decreases 8 - i,
    {
        r.push(((v >> (8 * i)) & 0xff) as u8);
        i = i + 1;
    }
    assert(r@ =~= u64_le(v));
    r
}

/// The four little-endian bytes of a `u32`.
pub fn u32_to_le_bytes(v: u32) -> (r: Vec<u8>)
    ensures
        r@ == u32_le(v),
{
    let mut r: Vec<u8> = Vec::new();
    let mut i: u32 = 0;
    while i < 4
        invariant
            i <= 4,
            r@.len() == i,
            forall|k: int| 0 <= k < i ==> r@[k] == ((v >> (8 * k) as u32) & 0xff) as u8,
        decreases 4 - i,
    {
        r.push(((v >> (8 * i)) & 0xff) as u8);
        i = i + 1;
    }
    assert(r@ =~= u32_le(v));
    r
}

/// The offset of `value` above `min`, as the unsigned 64-bit value that is bit packed.
pub open spec fn packed_offset(value: i64, min: i64) -> u64 {
    ((value - min) % 0x1_0000_0000_0000_0000) as u64
}

/// Appends the lowest `integer_bits(min, max)` bits of `value - min` to the buffer.
pub fn serialize_integer(value: i64, min: i64, max: i64, buffer: &mut ByteStreamWriteBuffer)
    requires
        old(buffer).wf(),
        (old(buffer).data().len() + 8) * 8 + 8 <= usize::MAX,
    ensures
        final(buffer).wf(),
        final(buffer).last_bit() == (old(buffer).last_bit() + bits_needed(max - min)) % 8,
        old(buffer).last_bit() == 0 ==> final(buffer).data() == old(buffer).data() + u64_le(
            packed_offset(value, min),
        ).take(((bits_needed(max - min) + 7) / 8) as int),
        old(buffer).last_bit() != 0 ==> ByteStreamWriteBuffer::bits_appended(
            old(buffer).data(),
            old(buffer).last_bit(),
            u64_le(packed_offset(value, min)),
            bits_needed(max - min) as int,
            final(buffer).data(),
        ),
        old(buffer).clean() && (old(buffer).last_bit() == 0 ==> tail_clear(
            u64_le(packed_offset(value, min)),
            bits_needed(max - min) as int,
        )) ==> final(buffer).clean() && final(buffer).written() == old(buffer).written()
            + crate::bit_seq::bits_of(
            u64_le(packed_offset(value, min)),
            0,
            bits_needed(max - min),
        ),
{
    let diff: i128 = value as i128 - min as i128;
    let uint: u64 = #[verifier::truncate] (diff as u64);
    proof {
        assert(diff as u64 == (diff % 0x1_0000_0000_0000_0000) as u64) by (bit_vector);
    }
    let data = u64_to_le_bytes(uint);
    let bits = integer_bits(min, max);
    buffer.add_bits(data.as_slice(), bits);
}

impl RecordDataType {
    /// Number of bits that one value of this type occupies in a byte stream.
    pub open spec fn bit_size_spec(&self) -> nat {
        match self {
            RecordDataType::Single { .. } => 32,
            RecordDataType::Double { .. } => 64,
            RecordDataType::ScaledInteger { min, max, .. } => bits_needed(*max - *min),
            RecordDataType::Integer { min, max } => bits_needed(*max - *min),
        }
    }

    /// Number of bits that one value of this type occupies in a byte stream.
    pub fn bit_size(&self) -> (r: usize)
        ensures
            r == self.bit_size_spec(),
            r <= 64,
    {
        match self {
            RecordDataType::Single { .. } => 32,
            RecordDataType::Double { .. } => 64,
            RecordDataType::ScaledInteger { min, max, .. } => integer_bits(*min, *max),
            RecordDataType::Integer { min, max } => integer_bits(*min, *max),
        }
    }

    /// The value kind that matches this data type.
    pub open spec fn accepts(&self, value: RecordValue) -> bool {
        match (self, value) {
            (RecordDataType::Single { .. }, RecordValue::Single(_)) => true,
            (RecordDataType::Double { .. }, RecordValue::Double(_)) => true,
            (RecordDataType::ScaledInteger { .. }, RecordValue::ScaledInteger(_)) => true,
            (RecordDataType::Integer { .. }, RecordValue::Integer(_)) => true,
            _ => false,
        }
    }

    /// Writes a value of this type into a byte stream buffer; fails if the value kind does not match.
    pub fn write(&self, value: &RecordValue, buffer: &mut ByteStreamWriteBuffer) -> (r: Result<()>)
        requires
            old(buffer).wf(),
            (old(buffer).data().len() + 8) * 8 + 8 <= usize::MAX,
        ensures
            final(buffer).wf(),
            r is Ok <==> self.accepts(*value),
            r matches Err(e) ==> e is Invalid && *final(buffer) == *old(buffer),
            r is Ok ==> final(buffer).last_bit() == (old(buffer).last_bit() + self.bit_size_spec()) % 8,
            r is Ok && old(buffer).clean() && self.clean_value(*value) ==> final(buffer).clean()
                && final(buffer).written() == old(buffer).written() + self.value_bits(*value),
            r is Ok ==> final(buffer).bit_len() == old(buffer).bit_len() + self.bit_size_spec(),
            r is Ok ==> final(buffer).data().len() <= old(buffer).data().len() + 8,
    {
        let ghost before = *buffer;
        match self {
            RecordDataType::Single { .. } => {
                if let RecordValue::Single(float) = value {
                    let bytes = u32_to_le_bytes(*float);
                    buffer.add_bytes(bytes.as_slice());
                } else {
                    return Error::invalid("Data type single only supports single values");
                }
            },
            RecordDataType::Double { .. } => {
                if let RecordValue::Double(double) = value {
                    let bytes = u64_to_le_bytes(*double);
                    buffer.add_bytes(bytes.as_slice());
                } else {
                    return Error::invalid("Data type double only supports double values");
                }
            },
            RecordDataType::ScaledInteger { min, max, .. } => {
                if let RecordValue::ScaledInteger(iv) = value {
                    serialize_integer(*iv, *min, *max, buffer);
                } else {
                    return Error::invalid(
                        "Data type scaled integer only supports scaled integer values",
                    );
                }
            },
            RecordDataType::Integer { min, max } => {
                if let RecordValue::Integer(iv) = value {
                    serialize_integer(*iv, *min, *max, buffer);
                } else {
                    return Error::invalid("Data type integer only supports integer values");
                }
            },
        }
        proof {
            lemma_bits_needed_le_64_all(*self);
            if before.last_bit() != 0 {
                assert((before.last_bit() + 32) % 8 == before.last_bit());
                assert((before.last_bit() + 64) % 8 == before.last_bit());
            }
            lemma_bit_len_growth(before, *buffer, self.bit_size_spec() as int);
        }
        Ok(())
    }

    /// The bits that writing `value` appends to a byte stream.
    pub open spec fn value_bits(&self, value: RecordValue) -> Seq<bool> {
        match (self, value) {
            (RecordDataType::Single { .. }, RecordValue::Single(v)) => crate::bit_seq::bits_of(
                u32_le(v),
                0,
                32,
            ),
            (RecordDataType::Double { .. }, RecordValue::Double(v)) => crate::bit_seq::bits_of(
                u64_le(v),
                0,
                64,
            ),
            (RecordDataType::ScaledInteger { min, max, .. }, RecordValue::ScaledInteger(v)) =>
                crate::bit_seq::bits_of(u64_le(packed_offset(v, *min)), 0, bits_needed(*max - *min)),
            (RecordDataType::Integer { min, max }, RecordValue::Integer(v)) => crate::bit_seq::bits_of(
                u64_le(packed_offset(v, *min)),
                0,
                bits_needed(*max - *min),
            ),
            _ => Seq::empty(),
        }
    }

    /// Writing `value` leaves no stray bits above the written ones in a fresh byte.
    pub open spec fn clean_value(&self, value: RecordValue) -> bool {
        match (self, value) {
            (RecordDataType::ScaledInteger { min, max, .. }, RecordValue::ScaledInteger(v)) =>
                tail_clear(u64_le(packed_offset(v, *min)), bits_needed(*max - *min) as int),
            (RecordDataType::Integer { min, max }, RecordValue::Integer(v)) => tail_clear(
                u64_le(packed_offset(v, *min)),
                bits_needed(*max - *min) as int,
            ),
            _ => true,
        }
    }

    /// The limits of this data type as record values.
    pub fn limits(&self) -> (r: (Option<RecordValue>, Option<RecordValue>))
        ensures
            r == self.limits_spec(),
    {
        match self {
            RecordDataType::Single { min, max } => (
                match min {
                    Some(v) => Some(RecordValue::Single(*v)),
                    None => None,
                },
                match max {
                    Some(v) => Some(RecordValue::Single(*v)),
                    None => None,
                },
            ),
            RecordDataType::Double { min, max } => (
                match min {
                    Some(v) => Some(RecordValue::Double(*v)),
                    None => None,
                },
                match max {
                    Some(v) => Some(RecordValue::Double(*v)),
                    None => None,
                },
            ),
            RecordDataType::ScaledInteger { min, max, .. } => (
                Some(RecordValue::ScaledInteger(*min)),
                Some(RecordValue::ScaledInteger(*max)),
            ),
            RecordDataType::Integer { min, max } => (
                Some(RecordValue::Integer(*min)),
                Some(RecordValue::Integer(*max)),
            ),
        }
    }

    /// The limits of this data type as record values.
    pub open spec fn limits_spec(&self) -> (Option<RecordValue>, Option<RecordValue>) {
        match self {
            RecordDataType::Single { min, max } => (
                match min {
                    Some(v) => Some(RecordValue::Single(*v)),
                    None => None,
                },
                match max {
                    Some(v) => Some(RecordValue::Single(*v)),
                    None => None,
                },
            ),
            RecordDataType::Double { min, max } => (
                match min {
                    Some(v) => Some(RecordValue::Double(*v)),
                    None => None,
                },
                match max {
                    Some(v) => Some(RecordValue::Double(*v)),
                    None => None,
                },
            ),
            RecordDataType::ScaledInteger { min, max, .. } => (
                Some(RecordValue::ScaledInteger(*min)),
                Some(RecordValue::ScaledInteger(*max)),
            ),
            RecordDataType::Integer { min, max } => (
                Some(RecordValue::Integer(*min)),
                Some(RecordValue::Integer(*max)),
            ),
        }
    }
}

impl RecordValue {
    /// The value of an integer record whose limits lie within `0 ..= 255`, as a byte: its low
    /// eight bits.
    pub fn to_u8(&self, dt: &RecordDataType) -> (r: Result<u8>)
        ensures
            match (*self, *dt) {
                (RecordValue::Integer(i), RecordDataType::Integer { min, max }) => if min >= 0 && max <= 255 {
                    r matches Ok(v) && v == i as u8
                } else {
                    r matches Err(e) && e is Internal
                },
                _ => r matches Err(e) && e is Internal,
            },
    {
        match (self, dt) {
            (RecordValue::Integer(i), RecordDataType::Integer { min, max }) => {
                if *min >= 0 && *max <= 255 {
                    Ok(#[verifier::truncate] (*i as u8))
                } else {
                    Error::internal("Integer range is too big for u8")
                }
            },
            _ => Error::internal("Tried to convert value to u8 with unsupported value or data type"),
        }
    }

    /// The value of an integer record.
    pub fn to_i64(&self, dt: &RecordDataType) -> (r: Result<i64>)
        ensures
            match (*self, *dt) {
                (RecordValue::Integer(i), RecordDataType::Integer { .. }) => r matches Ok(v) && v == i,
                _ => r matches Err(e) && e is Internal,
            },
    {
        match (self, dt) {
            (RecordValue::Integer(i), RecordDataType::Integer { .. }) => Ok(*i),
            _ => Error::internal("Tried to convert value to i64 with unsupported data type"),
        }
    }
}

impl RecordName {
    /// The XML tag name of the record.
    pub open spec fn tag_view(&self) -> Seq<char> {
        match self {
            RecordName::CartesianX => "cartesianX"@,
            RecordName::CartesianY => "cartesianY"@,
            RecordName::CartesianZ => "cartesianZ"@,
            RecordName::CartesianInvalidState => "cartesianInvalidState"@,
            RecordName::SphericalRange => "sphericalRange"@,
            RecordName::SphericalAzimuth => "sphericalAzimuth"@,
            RecordName::SphericalElevation => "sphericalElevation"@,
            RecordName::SphericalInvalidState => "sphericalInvalidState"@,
            RecordName::Intensity => "intensity"@,
            RecordName::IsIntensityInvalid => "isIntensityInvalid"@,
            RecordName::ColorRed => "colorRed"@,
            RecordName::ColorGreen => "colorGreen"@,
            RecordName::ColorBlue => "colorBlue"@,
            RecordName::IsColorInvalid => "isColorInvalid"@,
            RecordName::RowIndex => "rowIndex"@,
            RecordName::ColumnIndex => "columnIndex"@,
            RecordName::ReturnCount => "returnCount"@,
            RecordName::ReturnIndex => "returnIndex"@,
            RecordName::TimeStamp => "timeStamp"@,
            RecordName::IsTimeStampInvalid => "isTimeStampInvalid"@,
            RecordName::Unknown { name, .. } => name@,
        }
    }

    /// The XML tag name of the record.
    pub fn tag_name(&self) -> (r: &str)
        ensures
            r@ == self.tag_view(),
    {
        match self {
            RecordName::CartesianX => "cartesianX",
            RecordName::CartesianY => "cartesianY",
            RecordName::CartesianZ => "cartesianZ",
            RecordName::CartesianInvalidState => "cartesianInvalidState",
            RecordName::SphericalRange => "sphericalRange",
            RecordName::SphericalAzimuth => "sphericalAzimuth",
            RecordName::SphericalElevation => "sphericalElevation",
            RecordName::SphericalInvalidState => "sphericalInvalidState",
            RecordName::Intensity => "intensity",
            RecordName::IsIntensityInvalid => "isIntensityInvalid",
            RecordName::ColorRed => "colorRed",
            RecordName::ColorGreen => "colorGreen",
            RecordName::ColorBlue => "colorBlue",
            RecordName::IsColorInvalid => "isColorInvalid",
            RecordName::RowIndex => "rowIndex",
            RecordName::ColumnIndex => "columnIndex",
            RecordName::ReturnCount => "returnCount",
            RecordName::ReturnIndex => "returnIndex",
            RecordName::TimeStamp => "timeStamp",
            RecordName::IsTimeStampInvalid => "isTimeStampInvalid",
            RecordName::Unknown { name, .. } => name.as_str(),
        }
    }

    /// The XML namespace of the record; only attributes of extensions have one.
    pub open spec fn namespace_view(&self) -> Option<Seq<char>> {
        match self {
            RecordName::Unknown { namespace, .. } => Some(namespace@),
            _ => None,
        }
    }

    /// The XML namespace of the record; only attributes of extensions have one.
    pub fn namespace(&self) -> (r: Option<&str>)
        ensures
            match (r, self.namespace_view()) {
                (Some(s), Some(v)) => s@ == v,
                (None, None) => true,
                _ => false,
            },
    {
        match self {
            RecordName::Unknown { namespace, .. } => Some(namespace.as_str()),
            _ => None,
        }
    }

    /// The standard record with the given tag name, if there is one.
    pub open spec fn standard(tag: Seq<char>) -> Option<RecordName> {
        if tag == "cartesianX"@ {
            Some(RecordName::CartesianX)
        } else if tag == "cartesianY"@ {
            Some(RecordName::CartesianY)
        } else if tag == "cartesianZ"@ {
            Some(RecordName::CartesianZ)
        } else if tag == "cartesianInvalidState"@ {
            Some(RecordName::CartesianInvalidState)
        } else if tag == "sphericalRange"@ {
            Some(RecordName::SphericalRange)
        } else if tag == "sphericalAzimuth"@ {
            Some(RecordName::SphericalAzimuth)
        } else if tag == "sphericalElevation"@ {
            Some(RecordName::SphericalElevation)
        } else if tag == "sphericalInvalidState"@ {
            Some(RecordName::SphericalInvalidState)
        } else if tag == "intensity"@ {
            Some(RecordName::Intensity)
        } else if tag == "isIntensityInvalid"@ {
            Some(RecordName::IsIntensityInvalid)
        } else if tag == "colorRed"@ {
            Some(RecordName::ColorRed)
        } else if tag == "colorGreen"@ {
            Some(RecordName::ColorGreen)
        } else if tag == "colorBlue"@ {
            Some(RecordName::ColorBlue)
        } else if tag == "isColorInvalid"@ {
            Some(RecordName::IsColorInvalid)
        } else if tag == "rowIndex"@ {
            Some(RecordName::RowIndex)
        } else if tag == "columnIndex"@ {
            Some(RecordName::ColumnIndex)
        } else if tag == "returnCount"@ {
            Some(RecordName::ReturnCount)
        } else if tag == "returnIndex"@ {
            Some(RecordName::ReturnIndex)
        } else if tag == "timeStamp"@ {
            Some(RecordName::TimeStamp)
        } else if tag == "isTimeStampInvalid"@ {
            Some(RecordName::IsTimeStampInvalid)
        } else {
            None
        }
    }

    /// Maps an XML tag name, with the namespace prefix of its tag, to a record name.
    /// Tags outside the standard set name extension attributes and need a namespace.
    pub fn from_namespace_and_tag_name(namespace: Option<&str>, tag_name: &str) -> (r: Result<Self>)
        ensures
            match Self::standard(tag_name@) {
                Some(n) => r matches Ok(m) && m.same(n),
                None => match namespace {
                    Some(ns) => r matches Ok(RecordName::Unknown { namespace: a, name: b }) && a@
                        == ns@ && b@ == tag_name@,
                    None => r matches Err(e) && e is Invalid,
                },
            },
    {
        if str_eq(tag_name, "cartesianX") {
            Ok(RecordName::CartesianX)
        } else if str_eq(tag_name, "cartesianY") {
            Ok(RecordName::CartesianY)
        } else if str_eq(tag_name, "cartesianZ") {
            Ok(RecordName::CartesianZ)
        } else if str_eq(tag_name, "cartesianInvalidState") {
            Ok(RecordName::CartesianInvalidState)
        } else if str_eq(tag_name, "sphericalRange") {
            Ok(RecordName::SphericalRange)
        } else if str_eq(tag_name, "sphericalAzimuth") {
            Ok(RecordName::SphericalAzimuth)
        } else if str_eq(tag_name, "sphericalElevation") {
            Ok(RecordName::SphericalElevation)
        } else if str_eq(tag_name, "sphericalInvalidState") {
            Ok(RecordName::SphericalInvalidState)
        } else if str_eq(tag_name, "intensity") {
            Ok(RecordName::Intensity)
        } else if str_eq(tag_name, "isIntensityInvalid") {
            Ok(RecordName::IsIntensityInvalid)
        } else if str_eq(tag_name, "colorRed") {
            Ok(RecordName::ColorRed)
        } else if str_eq(tag_name, "colorGreen") {
            Ok(RecordName::ColorGreen)
        } else if str_eq(tag_name, "colorBlue") {
            Ok(RecordName::ColorBlue)
        } else if str_eq(tag_name, "isColorInvalid") {
            Ok(RecordName::IsColorInvalid)
        } else if str_eq(tag_name, "rowIndex") {
            Ok(RecordName::RowIndex)
        } else if str_eq(tag_name, "columnIndex") {
            Ok(RecordName::ColumnIndex)
        } else if str_eq(tag_name, "returnCount") {
            Ok(RecordName::ReturnCount)
        } else if str_eq(tag_name, "returnIndex") {
            Ok(RecordName::ReturnIndex)
        } else if str_eq(tag_name, "timeStamp") {
            Ok(RecordName::TimeStamp)
        } else if str_eq(tag_name, "isTimeStampInvalid") {
            Ok(RecordName::IsTimeStampInvalid)
        } else {
            match namespace {
                Some(ns) => Ok(RecordName::Unknown { namespace: ns.to_owned(), name: tag_name.to_owned() }),
                None => Error::invalid(
                    "You must provide a namespace of the corresponding extension for the unknown attribute",
                ),
            }
        }
    }

    /// Two record names are the same: the same standard record, or extension attributes
    /// with equal namespace and name.
    pub open spec fn same(&self, other: RecordName) -> bool {
        match (self, other) {
            (RecordName::Unknown { namespace: n1, name: m1 }, RecordName::Unknown { namespace: n2, name: m2 }) =>
                n1@ == n2@ && m1@ == m2@,
            (RecordName::Unknown { .. }, _) => false,
            (_, RecordName::Unknown { .. }) => false,
            _ => self.kind() == other.kind(),
        }
    }

    /// Position of the variant in the list of record names.
    pub open spec fn kind(&self) -> int {
        match self {
            RecordName::CartesianX => 0,
            RecordName::CartesianY => 1,
            RecordName::CartesianZ => 2,
            RecordName::CartesianInvalidState => 3,
            RecordName::SphericalRange => 4,
            RecordName::SphericalAzimuth => 5,
            RecordName::SphericalElevation => 6,
            RecordName::SphericalInvalidState => 7,
            RecordName::Intensity => 8,
            RecordName::IsIntensityInvalid => 9,
            RecordName::ColorRed => 10,
            RecordName::ColorGreen => 11,
            RecordName::ColorBlue => 12,
            RecordName::IsColorInvalid => 13,
            RecordName::RowIndex => 14,
            RecordName::ColumnIndex => 15,
            RecordName::ReturnCount => 16,
            RecordName::ReturnIndex => 17,
            RecordName::TimeStamp => 18,
            RecordName::IsTimeStampInvalid => 19,
            RecordName::Unknown { .. } => 20,
        }
    }

    pub(crate) fn kind_index(&self) -> (r: u8)
        ensures
            r == self.kind(),
    {
        match self {
            RecordName::CartesianX => 0,
            RecordName::CartesianY => 1,
            RecordName::CartesianZ => 2,
            RecordName::CartesianInvalidState => 3,
            RecordName::SphericalRange => 4,
            RecordName::SphericalAzimuth => 5,
            RecordName::SphericalElevation => 6,
            RecordName::SphericalInvalidState => 7,
            RecordName::Intensity => 8,
            RecordName::IsIntensityInvalid => 9,
            RecordName::ColorRed => 10,
            RecordName::ColorGreen => 11,
            RecordName::ColorBlue => 12,
            RecordName::IsColorInvalid => 13,
            RecordName::RowIndex => 14,
            RecordName::ColumnIndex => 15,
            RecordName::ReturnCount => 16,
            RecordName::ReturnIndex => 17,
            RecordName::TimeStamp => 18,
            RecordName::IsTimeStampInvalid => 19,
            RecordName::Unknown { .. } => 20,
        }
    }

    /// Whether two record names are the same.
    pub fn is_same(&self, other: &RecordName) -> (r: bool)
        ensures
            r == self.same(*other),
    {
        match (self, other) {
            (RecordName::Unknown { namespace: n1, name: m1 }, RecordName::Unknown { namespace: n2, name: m2 }) =>
                str_eq(n1.as_str(), n2.as_str()) && str_eq(m1.as_str(), m2.as_str()),
            _ => self.kind_index() == other.kind_index(),
        }
    }
}

/// The tag name of a standard record maps back to the same record.
pub proof fn lemma_tag_roundtrip(n: RecordName)
    requires
        !(n is Unknown),
    ensures
        RecordName::standard(n.tag_view()) matches Some(m) && m.same(n),
{
    match n {
        RecordName::CartesianX => {
            reveal_strlit("cartesianX");
        },
        RecordName::CartesianY => {
            reveal_strlit("cartesianY");
            reveal_strlit("cartesianX");
            assert("cartesianY"@[9] != "cartesianX"@[9]);
        },
        RecordName::CartesianZ => {
            reveal_strlit("cartesianZ");
            reveal_strlit("cartesianX");
            assert("cartesianZ"@[9] != "cartesianX"@[9]);
            reveal_strlit("cartesianY");
            assert("cartesianZ"@[9] != "cartesianY"@[9]);
        },
        RecordName::CartesianInvalidState => {
            reveal_strlit("cartesianInvalidState");
            reveal_strlit("cartesianX");
            assert("cartesianInvalidState"@.len() != "cartesianX"@.len());
            reveal_strlit("cartesianY");
            assert("cartesianInvalidState"@.len() != "cartesianY"@.len());
            reveal_strlit("cartesianZ");
            assert("cartesianInvalidState"@.len() != "cartesianZ"@.len());
        },
        RecordName::SphericalRange => {
            reveal_strlit("sphericalRange");
            reveal_strlit("cartesianX");
            assert("sphericalRange"@.len() != "cartesianX"@.len());
            reveal_strlit("cartesianY");
            assert("sphericalRange"@.len() != "cartesianY"@.len());
            reveal_strlit("cartesianZ");
            assert("sphericalRange"@.len() != "cartesianZ"@.len());
            reveal_strlit("cartesianInvalidState");
            assert("sphericalRange"@.len() != "cartesianInvalidState"@.len());
        },
        RecordName::SphericalAzimuth => {
            reveal_strlit("sphericalAzimuth");
            reveal_strlit("cartesianX");
            assert("sphericalAzimuth"@.len() != "cartesianX"@.len());
            reveal_strlit("cartesianY");
            assert("sphericalAzimuth"@.len() != "cartesianY"@.len());
            reveal_strlit("cartesianZ");
            assert("sphericalAzimuth"@.len() != "cartesianZ"@.len());
            reveal_strlit("cartesianInvalidState");
            assert("sphericalAzimuth"@.len() != "cartesianInvalidState"@.len());
            reveal_strlit("sphericalRange");
            assert("sphericalAzimuth"@.len() != "sphericalRange"@.len());
        },
        RecordName::SphericalElevation => {
            reveal_strlit("sphericalElevation");
            reveal_strlit("cartesianX");
            assert("sphericalElevation"@.len() != "cartesianX"@.len());
            reveal_strlit("cartesianY");
            assert("sphericalElevation"@.len() != "cartesianY"@.len());
            reveal_strlit("cartesianZ");
            assert("sphericalElevation"@.len() != "cartesianZ"@.len());
            reveal_strlit("cartesianInvalidState");
            assert("sphericalElevation"@.len() != "cartesianInvalidState"@.len());
            reveal_strlit("sphericalRange");
            assert("sphericalElevation"@.len() != "sphericalRange"@.len());
            reveal_strlit("sphericalAzimuth");
            assert("sphericalElevation"@.len() != "sphericalAzimuth"@.len());
        },
        RecordName::SphericalInvalidState => {
            reveal_strlit("sphericalInvalidState");
            reveal_strlit("cartesianX");
            assert("sphericalInvalidState"@.len() != "cartesianX"@.len());
            reveal_strlit("cartesianY");
            assert("sphericalInvalidState"@.len() != "cartesianY"@.len());
            reveal_strlit("cartesianZ");
            assert("sphericalInvalidState"@.len() != "cartesianZ"@.len());
            reveal_strlit("cartesianInvalidState");
            assert("sphericalInvalidState"@[0] != "cartesianInvalidState"@[0]);
            reveal_strlit("sphericalRange");
            assert("sphericalInvalidState"@.len() != "sphericalRange"@.len());
            reveal_strlit("sphericalAzimuth");
            assert("sphericalInvalidState"@.len() != "sphericalAzimuth"@.len());
            reveal_strlit("sphericalElevation");
            assert("sphericalInvalidState"@.len() != "sphericalElevation"@.len());
        },
        RecordName::Intensity => {
            reveal_strlit("intensity");
            reveal_strlit("cartesianX");
            assert("intensity"@.len() != "cartesianX"@.len());
            reveal_strlit("cartesianY");
            assert("intensity"@.len() != "cartesianY"@.len());
            reveal_strlit("cartesianZ");
            assert("intensity"@.len() != "cartesianZ"@.len());
            reveal_strlit("cartesianInvalidState");
            assert("intensity"@.len() != "cartesianInvalidState"@.len());
            reveal_strlit("sphericalRange");
            assert("intensity"@.len() != "sphericalRange"@.len());
            reveal_strlit("sphericalAzimuth");
            assert("intensity"@.len() != "sphericalAzimuth"@.len());
            reveal_strlit("sphericalElevation");
            assert("intensity"@.len() != "sphericalElevation"@.len());
            reveal_strlit("sphericalInvalidState");
            assert("intensity"@.len() != "sphericalInvalidState"@.len());
        },
        RecordName::IsIntensityInvalid => {
            reveal_strlit("isIntensityInvalid");
            reveal_strlit("cartesianX");
            assert("isIntensityInvalid"@.len() != "cartesianX"@.len());
            reveal_strlit("cartesianY");
            assert("isIntensityInvalid"@.len() != "cartesianY"@.len());
            reveal_strlit("cartesianZ");
            assert("isIntensityInvalid"@.len() != "cartesianZ"@.len());
            reveal_strlit("cartesianInvalidState");
            assert("isIntensityInvalid"@.len() != "cartesianInvalidState"@.len());
            reveal_strlit("sphericalRange");
            assert("isIntensityInvalid"@.len() != "sphericalRange"@.len());
            reveal_strlit("sphericalAzimuth");
            assert("isIntensityInvalid"@.len() != "sphericalAzimuth"@.len());
            reveal_strlit("sphericalElevation");
            assert("isIntensityInvalid"@[0] != "sphericalElevation"@[0]);
            reveal_strlit("sphericalInvalidState");
            assert("isIntensityInvalid"@.len() != "sphericalInvalidState"@.len());
            reveal_strlit("intensity");
            assert("isIntensityInvalid"@.len() != "intensity"@.len());
        },
        RecordName::ColorRed => {
            reveal_strlit("colorRed");
            reveal_strlit("cartesianX");
            assert("colorRed"@.len() != "cartesianX"@.len());
            reveal_strlit("cartesianY");
            assert("colorRed"@.len() != "cartesianY"@.len());
            reveal_strlit("cartesianZ");
            assert("colorRed"@.len() != "cartesianZ"@.len());
            reveal_strlit("cartesianInvalidState");
            assert("colorRed"@.len() != "cartesianInvalidState"@.len());
            reveal_strlit("sphericalRange");
            assert("colorRed"@.len() != "sphericalRange"@.len());
            reveal_strlit("sphericalAzimuth");
            assert("colorRed"@.len() != "sphericalAzimuth"@.len());
            reveal_strlit("sphericalElevation");
            assert("colorRed"@.len() != "sphericalElevation"@.len());
            reveal_strlit("sphericalInvalidState");
            assert("colorRed"@.len() != "sphericalInvalidState"@.len());
            reveal_strlit("intensity");
            assert("colorRed"@.len() != "intensity"@.len());
            reveal_strlit("isIntensityInvalid");
            assert("colorRed"@.len() != "isIntensityInvalid"@.len());
        },
        RecordName::ColorGreen => {
            reveal_strlit("colorGreen");
            reveal_strlit("cartesianX");
            assert("colorGreen"@[1] != "cartesianX"@[1]);
            reveal_strlit("cartesianY");
            assert("colorGreen"@[1] != "cartesianY"@[1]);
            reveal_strlit("cartesianZ");
            assert("colorGreen"@[1] != "cartesianZ"@[1]);
            reveal_strlit("cartesianInvalidState");
            assert("colorGreen"@.len() != "cartesianInvalidState"@.len());
            reveal_strlit("sphericalRange");
            assert("colorGreen"@.len() != "sphericalRange"@.len());
            reveal_strlit("sphericalAzimuth");
            assert("colorGreen"@.len() != "sphericalAzimuth"@.len());
            reveal_strlit("sphericalElevation");
            assert("colorGreen"@.len() != "sphericalElevation"@.len());
            reveal_strlit("sphericalInvalidState");
            assert("colorGreen"@.len() != "sphericalInvalidState"@.len());
            reveal_strlit("intensity");
            assert("colorGreen"@.len() != "intensity"@.len());
            reveal_strlit("isIntensityInvalid");
            assert("colorGreen"@.len() != "isIntensityInvalid"@.len());
            reveal_strlit("colorRed");
            assert("colorGreen"@.len() != "colorRed"@.len());
        },
        RecordName::ColorBlue => {
            reveal_strlit("colorBlue");
            reveal_strlit("cartesianX");
            assert("colorBlue"@.len() != "cartesianX"@.len());
            reveal_strlit("cartesianY");
            assert("colorBlue"@.len() != "cartesianY"@.len());
            reveal_strlit("cartesianZ");
            assert("colorBlue"@.len() != "cartesianZ"@.len());
            reveal_strlit("cartesianInvalidState");
            assert("colorBlue"@.len() != "cartesianInvalidState"@.len());
            reveal_strlit("sphericalRange");
            assert("colorBlue"@.len() != "sphericalRange"@.len());
            reveal_strlit("sphericalAzimuth");
            assert("colorBlue"@.len() != "sphericalAzimuth"@.len());
            reveal_strlit("sphericalElevation");
            assert("colorBlue"@.len() != "sphericalElevation"@.len());
            reveal_strlit("sphericalInvalidState");
            assert("colorBlue"@.len() != "sphericalInvalidState"@.len());
            reveal_strlit("intensity");
            assert("colorBlue"@[0] != "intensity"@[0]);
            reveal_strlit("isIntensityInvalid");
            assert("colorBlue"@.len() != "isIntensityInvalid"@.len());
            reveal_strlit("colorRed");
            assert("colorBlue"@.len() != "colorRed"@.len());
            reveal_strlit("colorGreen");
            assert("colorBlue"@.len() != "colorGreen"@.len());
        },
        RecordName::IsColorInvalid => {
            reveal_strlit("isColorInvalid");
            reveal_strlit("cartesianX");
            assert("isColorInvalid"@.len() != "cartesianX"@.len());
            reveal_strlit("cartesianY");
            assert("isColorInvalid"@.len() != "cartesianY"@.len());
            reveal_strlit("cartesianZ");
            assert("isColorInvalid"@.len() != "cartesianZ"@.len());
            reveal_strlit("cartesianInvalidState");
            assert("isColorInvalid"@.len() != "cartesianInvalidState"@.len());
            reveal_strlit("sphericalRange");
            assert("isColorInvalid"@[0] != "sphericalRange"@[0]);
            reveal_strlit("sphericalAzimuth");
            assert("isColorInvalid"@.len() != "sphericalAzimuth"@.len());
            reveal_strlit("sphericalElevation");
            assert("isColorInvalid"@.len() != "sphericalElevation"@.len());
            reveal_strlit("sphericalInvalidState");
            assert("isColorInvalid"@.len() != "sphericalInvalidState"@.len());
            reveal_strlit("intensity");
            assert("isColorInvalid"@.len() != "intensity"@.len());
            reveal_strlit("isIntensityInvalid");
            assert("isColorInvalid"@.len() != "isIntensityInvalid"@.len());
            reveal_strlit("colorRed");
            assert("isColorInvalid"@.len() != "colorRed"@.len());
            reveal_strlit("colorGreen");
            assert("isColorInvalid"@.len() != "colorGreen"@.len());
            reveal_strlit("colorBlue");
            assert("isColorInvalid"@.len() != "colorBlue"@.len());
        },
        RecordName::RowIndex => {
            reveal_strlit("rowIndex");
            reveal_strlit("cartesianX");
            assert("rowIndex"@.len() != "cartesianX"@.len());
            reveal_strlit("cartesianY");
            assert("rowIndex"@.len() != "cartesianY"@.len());
            reveal_strlit("cartesianZ");
            assert("rowIndex"@.len() != "cartesianZ"@.len());
            reveal_strlit("cartesianInvalidState");
            assert("rowIndex"@.len() != "cartesianInvalidState"@.len());
            reveal_strlit("sphericalRange");
            assert("rowIndex"@.len() != "sphericalRange"@.len());
            reveal_strlit("sphericalAzimuth");
            assert("rowIndex"@.len() != "sphericalAzimuth"@.len());
            reveal_strlit("sphericalElevation");
            assert("rowIndex"@.len() != "sphericalElevation"@.len());
            reveal_strlit("sphericalInvalidState");
            assert("rowIndex"@.len() != "sphericalInvalidState"@.len());
            reveal_strlit("intensity");
            assert("rowIndex"@.len() != "intensity"@.len());
            reveal_strlit("isIntensityInvalid");
            assert("rowIndex"@.len() != "isIntensityInvalid"@.len());
            reveal_strlit("colorRed");
            assert("rowIndex"@[0] != "colorRed"@[0]);
            reveal_strlit("colorGreen");
            assert("rowIndex"@.len() != "colorGreen"@.len());
            reveal_strlit("colorBlue");
            assert("rowIndex"@.len() != "colorBlue"@.len());
            reveal_strlit("isColorInvalid");
            assert("rowIndex"@.len() != "isColorInvalid"@.len());
        },
        RecordName::ColumnIndex => {
            reveal_strlit("columnIndex");
            reveal_strlit("cartesianX");
            assert("columnIndex"@.len() != "cartesianX"@.len());
            reveal_strlit("cartesianY");
            assert("columnIndex"@.len() != "cartesianY"@.len());
            reveal_strlit("cartesianZ");
            assert("columnIndex"@.len() != "cartesianZ"@.len());
            reveal_strlit("cartesianInvalidState");
            assert("columnIndex"@.len() != "cartesianInvalidState"@.len());
            reveal_strlit("sphericalRange");
            assert("columnIndex"@.len() != "sphericalRange"@.len());
            reveal_strlit("sphericalAzimuth");
            assert("columnIndex"@.len() != "sphericalAzimuth"@.len());
            reveal_strlit("sphericalElevation");
            assert("columnIndex"@.len() != "sphericalElevation"@.len());
            reveal_strlit("sphericalInvalidState");
            assert("columnIndex"@.len() != "sphericalInvalidState"@.len());
            reveal_strlit("intensity");
            assert("columnIndex"@.len() != "intensity"@.len());
            reveal_strlit("isIntensityInvalid");
            assert("columnIndex"@.len() != "isIntensityInvalid"@.len());
            reveal_strlit("colorRed");
            assert("columnIndex"@.len() != "colorRed"@.len());
            reveal_strlit("colorGreen");
            assert("columnIndex"@.len() != "colorGreen"@.len());
            reveal_strlit("colorBlue");
            assert("columnIndex"@.len() != "colorBlue"@.len());
            reveal_strlit("isColorInvalid");
            assert("columnIndex"@.len() != "isColorInvalid"@.len());
            reveal_strlit("rowIndex");
            assert("columnIndex"@.len() != "rowIndex"@.len());
        },
        RecordName::ReturnCount => {
            reveal_strlit("returnCount");
            reveal_strlit("cartesianX");
            assert("returnCount"@.len() != "cartesianX"@.len());
            reveal_strlit("cartesianY");
            assert("returnCount"@.len() != "cartesianY"@.len());
            reveal_strlit("cartesianZ");
            assert("returnCount"@.len() != "cartesianZ"@.len());
            reveal_strlit("cartesianInvalidState");
            assert("returnCount"@.len() != "cartesianInvalidState"@.len());
            reveal_strlit("sphericalRange");
            assert("returnCount"@.len() != "sphericalRange"@.len());
            reveal_strlit("sphericalAzimuth");
            assert("returnCount"@.len() != "sphericalAzimuth"@.len());
            reveal_strlit("sphericalElevation");
            assert("returnCount"@.len() != "sphericalElevation"@.len());
            reveal_strlit("sphericalInvalidState");
            assert("returnCount"@.len() != "sphericalInvalidState"@.len());
            reveal_strlit("intensity");
            assert("returnCount"@.len() != "intensity"@.len());
            reveal_strlit("isIntensityInvalid");
            assert("returnCount"@.len() != "isIntensityInvalid"@.len());
            reveal_strlit("colorRed");
            assert("returnCount"@.len() != "colorRed"@.len());
            reveal_strlit("colorGreen");
            assert("returnCount"@.len() != "colorGreen"@.len());
            reveal_strlit("colorBlue");
            assert("returnCount"@.len() != "colorBlue"@.len());
            reveal_strlit("isColorInvalid");
            assert("returnCount"@.len() != "isColorInvalid"@.len());
            reveal_strlit("rowIndex");
            assert("returnCount"@.len() != "rowIndex"@.len());
            reveal_strlit("columnIndex");
            assert("returnCount"@[0] != "columnIndex"@[0]);
        },
        RecordName::ReturnIndex => {
            reveal_strlit("returnIndex");
            reveal_strlit("cartesianX");
            assert("returnIndex"@.len() != "cartesianX"@.len());
            reveal_strlit("cartesianY");
            assert("returnIndex"@.len() != "cartesianY"@.len());
            reveal_strlit("cartesianZ");
            assert("returnIndex"@.len() != "cartesianZ"@.len());
            reveal_strlit("cartesianInvalidState");
            assert("returnIndex"@.len() != "cartesianInvalidState"@.len());
            reveal_strlit("sphericalRange");
            assert("returnIndex"@.len() != "sphericalRange"@.len());
            reveal_strlit("sphericalAzimuth");
            assert("returnIndex"@.len() != "sphericalAzimuth"@.len());
            reveal_strlit("sphericalElevation");
            assert("returnIndex"@.len() != "sphericalElevation"@.len());
            reveal_strlit("sphericalInvalidState");
            assert("returnIndex"@.len() != "sphericalInvalidState"@.len());
            reveal_strlit("intensity");
            assert("returnIndex"@.len() != "intensity"@.len());
            reveal_strlit("isIntensityInvalid");
            assert("returnIndex"@.len() != "isIntensityInvalid"@.len());
            reveal_strlit("colorRed");
            assert("returnIndex"@.len() != "colorRed"@.len());
            reveal_strlit("colorGreen");
            assert("returnIndex"@.len() != "colorGreen"@.len());
            reveal_strlit("colorBlue");
            assert("returnIndex"@.len() != "colorBlue"@.len());
            reveal_strlit("isColorInvalid");
            assert("returnIndex"@.len() != "isColorInvalid"@.len());
            reveal_strlit("rowIndex");
            assert("returnIndex"@.len() != "rowIndex"@.len());
            reveal_strlit("columnIndex");
            assert("returnIndex"@[0] != "columnIndex"@[0]);
            reveal_strlit("returnCount");
            assert("returnIndex"@[6] != "returnCount"@[6]);
        },
        RecordName::TimeStamp => {
            reveal_strlit("timeStamp");
            reveal_strlit("cartesianX");
            assert("timeStamp"@.len() != "cartesianX"@.len());
            reveal_strlit("cartesianY");
            assert("timeStamp"@.len() != "cartesianY"@.len());
            reveal_strlit("cartesianZ");
            assert("timeStamp"@.len() != "cartesianZ"@.len());
            reveal_strlit("cartesianInvalidState");
            assert("timeStamp"@.len() != "cartesianInvalidState"@.len());
            reveal_strlit("sphericalRange");
            assert("timeStamp"@.len() != "sphericalRange"@.len());
            reveal_strlit("sphericalAzimuth");
            assert("timeStamp"@.len() != "sphericalAzimuth"@.len());
            reveal_strlit("sphericalElevation");
            assert("timeStamp"@.len() != "sphericalElevation"@.len());
            reveal_strlit("sphericalInvalidState");
            assert("timeStamp"@.len() != "sphericalInvalidState"@.len());
            reveal_strlit("intensity");
            assert("timeStamp"@[0] != "intensity"@[0]);
            reveal_strlit("isIntensityInvalid");
            assert("timeStamp"@.len() != "isIntensityInvalid"@.len());
            reveal_strlit("colorRed");
            assert("timeStamp"@.len() != "colorRed"@.len());
            reveal_strlit("colorGreen");
            assert("timeStamp"@.len() != "colorGreen"@.len());
            reveal_strlit("colorBlue");
            assert("timeStamp"@[0] != "colorBlue"@[0]);
            reveal_strlit("isColorInvalid");
            assert("timeStamp"@.len() != "isColorInvalid"@.len());
            reveal_strlit("rowIndex");
            assert("timeStamp"@.len() != "rowIndex"@.len());
            reveal_strlit("columnIndex");
            assert("timeStamp"@.len() != "columnIndex"@.len());
            reveal_strlit("returnCount");
            assert("timeStamp"@.len() != "returnCount"@.len());
            reveal_strlit("returnIndex");
            assert("timeStamp"@.len() != "returnIndex"@.len());
        },
        RecordName::IsTimeStampInvalid => {
            reveal_strlit("isTimeStampInvalid");
            reveal_strlit("cartesianX");
            assert("isTimeStampInvalid"@.len() != "cartesianX"@.len());
            reveal_strlit("cartesianY");
            assert("isTimeStampInvalid"@.len() != "cartesianY"@.len());
            reveal_strlit("cartesianZ");
            assert("isTimeStampInvalid"@.len() != "cartesianZ"@.len());
            reveal_strlit("cartesianInvalidState");
            assert("isTimeStampInvalid"@.len() != "cartesianInvalidState"@.len());
            reveal_strlit("sphericalRange");
            assert("isTimeStampInvalid"@.len() != "sphericalRange"@.len());
            reveal_strlit("sphericalAzimuth");
            assert("isTimeStampInvalid"@.len() != "sphericalAzimuth"@.len());
            reveal_strlit("sphericalElevation");
            assert("isTimeStampInvalid"@[0] != "sphericalElevation"@[0]);
            reveal_strlit("sphericalInvalidState");
            assert("isTimeStampInvalid"@.len() != "sphericalInvalidState"@.len());
            reveal_strlit("intensity");
            assert("isTimeStampInvalid"@.len() != "intensity"@.len());
            reveal_strlit("isIntensityInvalid");
            assert("isTimeStampInvalid"@[2] != "isIntensityInvalid"@[2]);
            reveal_strlit("colorRed");
            assert("isTimeStampInvalid"@.len() != "colorRed"@.len());
            reveal_strlit("colorGreen");
            assert("isTimeStampInvalid"@.len() != "colorGreen"@.len());
            reveal_strlit("colorBlue");
            assert("isTimeStampInvalid"@.len() != "colorBlue"@.len());
            reveal_strlit("isColorInvalid");
            assert("isTimeStampInvalid"@.len() != "isColorInvalid"@.len());
            reveal_strlit("rowIndex");
            assert("isTimeStampInvalid"@.len() != "rowIndex"@.len());
            reveal_strlit("columnIndex");
            assert("isTimeStampInvalid"@.len() != "columnIndex"@.len());
            reveal_strlit("returnCount");
            assert("isTimeStampInvalid"@.len() != "returnCount"@.len());
            reveal_strlit("returnIndex");
            assert("isTimeStampInvalid"@.len() != "returnIndex"@.len());
            reveal_strlit("timeStamp");
            assert("isTimeStampInvalid"@.len() != "timeStamp"@.len());
        },
        RecordName::Unknown { .. } => {},
    }
}

} // verus!
