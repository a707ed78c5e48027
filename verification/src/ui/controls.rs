//! Controls that several views share.

use crate::app::SortDirection;
use vstd::prelude::*;

verus! {

/// What a click on the header of a column makes of how the table is sorted:
/// ascending, descending and unsorted in turn. `active` is the direction in
/// which the table is sorted by this column, if it is.
pub fn next_direction(active: Option<SortDirection>) -> (r: Option<SortDirection>)
    ensures
        r == (match active {
            None => Some(SortDirection::Asc),
            Some(SortDirection::Asc) => Some(SortDirection::Desc),
            Some(SortDirection::Desc) => None,
        }),
{
    match active {
        None => Some(SortDirection::Asc),
        Some(SortDirection::Asc) => Some(SortDirection::Desc),
        Some(SortDirection::Desc) => None,
    }
}

/// Three clicks on the header of a column leave it as it was.
pub proof fn law_three_clicks_come_round(
    active: Option<SortDirection>,
    once: Option<SortDirection>,
    twice: Option<SortDirection>,
    thrice: Option<SortDirection>,
)
    requires
        // What `next_direction` does.
        clicked(active, once),
        clicked(once, twice),
        clicked(twice, thrice),
    ensures
        thrice == active,
        once != active && twice != active && once != twice,
{
}

/// Whether `b` is what a click makes of `a`.
pub open spec fn clicked(a: Option<SortDirection>, b: Option<SortDirection>) -> bool {
    b == (match a {
        None => Some(SortDirection::Asc),
        Some(SortDirection::Asc) => Some(SortDirection::Desc),
        Some(SortDirection::Desc) => None,
    })
}

} // verus!
