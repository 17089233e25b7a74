use vstd::prelude::*;
use vstd::string::StringSliceAdditionalSpecFns;
use crate::config::{decimal_value, parse_decimal, setting_bytes, setting_ok, setting_value};

verus! {

/// The recursion cut-off of the adaptive-integration kernel: `setting` read
/// in decimal, 1500 when it is absent.
pub fn parse_threshold(setting: Option<&str>) -> (res: u64)
    requires
        setting_ok(setting_bytes(setting), u64::MAX as nat),
    ensures
        res == setting_value(setting_bytes(setting), 1500),
        match setting {
            None => res == 1500,
            Some(st) => res == decimal_value(st.spec_bytes()),
        },
{
    match setting {
        Some(string) => parse_decimal(string.as_bytes()),
        None => 1500,
    }
}

} // verus!
