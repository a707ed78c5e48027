//! The dialog that confirms a delete.

use crate::app::DeleteConfirmState;
use crate::text;
use vstd::prelude::*;

verus! {

/// What the user is asked, given how the size of the files is written.
pub open spec fn question(permanent: bool, count: nat, size_text: Seq<char>) -> Seq<char> {
    if permanent {
        "Permanently delete "@ + text::decimal(count) + " file(s) ("@ + size_text
            + ")? They will not go to the Recycle Bin and cannot be recovered."@
    } else {
        "Move "@ + text::decimal(count) + " file(s) ("@ + size_text
            + ") to the trash? This cannot be undone from within dupe-rs."@
    }
}

/// Asks the user, given how the size of the files is written.
pub fn ask(permanent: bool, count: usize, size_text: &str) -> (r: String)
    ensures
        r@ == question(permanent, count as nat, size_text@),
{
    if permanent {
        "Permanently delete ".to_owned().concat(text::decimal_text(count as u128).as_str()).concat(
            " file(s) (",
        ).concat(size_text).concat(
            ")? They will not go to the Recycle Bin and cannot be recovered.",
        )
    } else {
        "Move ".to_owned().concat(text::decimal_text(count as u128).as_str()).concat(
            " file(s) (",
        ).concat(size_text).concat(") to the trash? This cannot be undone from within dupe-rs.")
    }
}

/// What the user is asked before a delete.
pub fn confirm_text(confirm: &DeleteConfirmState) -> (r: String)
    ensures
        r@ == question(
            confirm.permanent,
            confirm.paths@.len(),
            crate::ui::format::size_text(confirm.total_size),
        ),
{
    let size: String = crate::ui::format::format_size(confirm.total_size);
    ask(confirm.permanent, confirm.paths.len(), size.as_str())
}

/// What is asked before a delete says how many files go, how large they are, and
/// whether they can be got back.
pub proof fn law_deletes_are_asked_about(count: nat, size: Seq<char>)
    ensures
        question(true, count, size) == "Permanently delete "@ + text::decimal(count)
            + " file(s) ("@ + size
            + ")? They will not go to the Recycle Bin and cannot be recovered."@,
        question(false, count, size) == "Move "@ + text::decimal(count) + " file(s) ("@ + size
            + ") to the trash? This cannot be undone from within dupe-rs."@,
{
}

} // verus!
