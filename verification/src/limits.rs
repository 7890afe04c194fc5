use crate::record::{RecordDataType, RecordValue};
use vstd::prelude::*;

verus! {

/// Optional minimum and maximum values for intensity.
#[derive(Clone, Copy, Debug)]
pub struct IntensityLimits {
    pub intensity_min: Option<RecordValue>,
    pub intensity_max: Option<RecordValue>,
}

/// Optional minimum and maximum values for the colors red, green and blue.
#[derive(Clone, Copy, Debug)]
pub struct ColorLimits {
    pub red_min: Option<RecordValue>,
    pub red_max: Option<RecordValue>,
    pub green_min: Option<RecordValue>,
    pub green_max: Option<RecordValue>,
    pub blue_min: Option<RecordValue>,
    pub blue_max: Option<RecordValue>,
}

impl IntensityLimits {
    /// The intensity limits that the data type of the intensity record gives.
    pub fn from_record_type(data_type: &RecordDataType) -> (r: Self)
        ensures
            (r.intensity_min, r.intensity_max) == data_type.limits_spec(),
    {
        let (intensity_min, intensity_max) = data_type.limits();
        Self { intensity_min, intensity_max }
    }
}

impl ColorLimits {
    /// The color limits that the data types of the red, green and blue records give.
    pub fn from_record_types(red: &RecordDataType, green: &RecordDataType, blue: &RecordDataType) -> (r: Self)
        ensures
            (r.red_min, r.red_max) == red.limits_spec(),
            (r.green_min, r.green_max) == green.limits_spec(),
            (r.blue_min, r.blue_max) == blue.limits_spec(),
    {
        let (red_min, red_max) = red.limits();
        let (green_min, green_max) = green.limits();
        let (blue_min, blue_max) = blue.limits();
        Self { red_min, red_max, green_min, green_max, blue_min, blue_max }
    }
}

} // verus!
