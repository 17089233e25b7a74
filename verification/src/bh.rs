use vstd::prelude::*;
use vstd::string::StringSliceAdditionalSpecFns;
use crate::config::{decimal_value, parse_decimal, setting_bytes, setting_ok, setting_value};

verus! {

/// The leaf capacity of the Barnes-Hut tree: `setting` read in decimal, 4
/// when it is absent.
pub fn parse_leafcap(setting: Option<&str>) -> (res: usize)
    requires
        setting_ok(setting_bytes(setting), usize::MAX as nat),
    ensures
        res == setting_value(setting_bytes(setting), 4),
        match setting {
            None => res == 4,
            Some(st) => res == decimal_value(st.spec_bytes()),
        },
{
    match setting {
        Some(string) => parse_decimal(string.as_bytes()) as usize,
        None => 4,
    }
}

} // verus!
