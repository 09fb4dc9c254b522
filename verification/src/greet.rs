//! The greeting the task listing opens with: which salutation fits the hour.

use vstd::prelude::*;

verus! {

/// The salutation for an hour of the day: morning from five to noon,
/// afternoon until five, evening through the night, and a plain greeting for
/// an hour no clock produces.
pub fn greeting_for_hour(hour: u8) -> (r: &'static str)
    ensures
        5 <= hour <= 12 ==> r@ == "good morning"@,
        13 <= hour <= 17 ==> r@ == "good afternoon"@,
        (18 <= hour <= 24 || hour <= 4) ==> r@ == "good evening"@,
        hour > 24 ==> r@ == "good day"@,
{
    if 5 <= hour && hour <= 12 {
        "good morning"
    } else if 13 <= hour && hour <= 17 {
        "good afternoon"
    } else if (18 <= hour && hour <= 24) || hour <= 4 {
        "good evening"
    } else {
        "good day"
    }
}

} // verus!
