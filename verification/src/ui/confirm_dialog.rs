//! The "are you sure?" dialog for cancelling a job or closing the window.

use crate::app::{self, ConfirmAction, DupeApp};
use vstd::prelude::*;

verus! {

/// What the dialog says.
#[derive(Debug, PartialEq)]
pub struct Question {
    pub title: &'static str,
    pub message: String,
    /// What the button that goes ahead says.
    pub confirm_label: &'static str,
}

/// The texts with `", "` between them.
pub open spec fn joined(list: Seq<Seq<char>>) -> Seq<char>
    decreases list.len(),
{
    if list.len() == 0 {
        ""@
    } else if list.len() == 1 {
        list[0]
    } else {
        joined(list.drop_last()) + ", "@ + list.last()
    }
}

fn join(list: &Vec<&'static str>) -> (r: String)
    ensures
        r@ == joined(app::names_of(list@)),
{
    let ghost all = app::names_of(list@);
    if list.len() == 0 {
        return "".to_owned();
    }
    let mut out: String = list[0].to_owned();
    let mut i: usize = 1;
    assert(all.take(1) =~= seq![all[0]]);
    while i < list.len()
        invariant
            1 <= i <= list@.len(),
            all == app::names_of(list@),
            out@ == joined(all.take(i as int)),
        decreases list@.len() - i,
    {
        assert(all.take(i + 1).drop_last() =~= all.take(i as int));
        assert(all.take(i + 1).last() == list@[i as int]@);
        out = out.concat(", ").concat(list[i]);
        i = i + 1;
    }
    assert(all.take(all.len() as int) =~= all);
    out
}

/// The title of the dialog, what it says and what its button says.
pub open spec fn question_texts(work: Seq<Seq<char>>, action: ConfirmAction) -> (
    Seq<char>,
    Seq<char>,
    Seq<char>,
) {
    match action {
        ConfirmAction::CancelScan => (
            "Cancel scan?"@,
            "The scan stops and only the duplicates found so far stay listed."@,
            "Cancel scan"@,
        ),
        ConfirmAction::CancelIndexing => (
            "Cancel indexing?"@,
            "Nothing from this indexing pass will be added to the reverse-search index."@,
            "Cancel indexing"@,
        ),
        ConfirmAction::CancelDelete(_) => (
            "Stop deleting?"@,
            "Files already deleted stay deleted; the rest are left alone."@,
            "Stop deleting"@,
        ),
        ConfirmAction::CancelCopy => (
            "Cancel copying?"@,
            "Folders already copied stay on the target and are still added to the index; the file in progress is removed."@,
            "Cancel copying"@,
        ),
        ConfirmAction::CancelReencode => (
            "Cancel re-encoding?"@,
            "Files already re-encoded keep their new versions; the one in progress is discarded and its original left untouched."@,
            "Cancel re-encoding"@,
        ),
        ConfirmAction::CancelFlatten => (
            "Cancel moving?"@,
            "Files already moved stay where they are and can be moved back with Undo."@,
            "Cancel moving"@,
        ),
        ConfirmAction::CloseWindow => (
            "Close dupe-rs?"@,
            if work.len() == 0 {
                "The current scan results will be lost."@
            } else {
                "Still running: "@ + joined(work)
                    + ". Closing stops it; anything already finished is kept."@
            },
            "Close anyway"@,
        ),
    }
}

/// What the dialog says before an action is carried out.
pub fn describe(app: &DupeApp, action: ConfirmAction) -> (r: Question)
    ensures
        (r.title@, r.message@, r.confirm_label@) == question_texts(app.work_names(), action),
{
    match action {
        ConfirmAction::CancelScan => Question {
            title: "Cancel scan?",
            message: "The scan stops and only the duplicates found so far stay listed.".to_owned(),
            confirm_label: "Cancel scan",
        },
        ConfirmAction::CancelIndexing => Question {
            title: "Cancel indexing?",
            message: "Nothing from this indexing pass will be added to the reverse-search index.".to_owned(),
            confirm_label: "Cancel indexing",
        },
        ConfirmAction::CancelDelete(_) => Question {
            title: "Stop deleting?",
            message: "Files already deleted stay deleted; the rest are left alone.".to_owned(),
            confirm_label: "Stop deleting",
        },
        ConfirmAction::CancelCopy => Question {
            title: "Cancel copying?",
            message: "Folders already copied stay on the target and are still added to the index; the file in progress is removed.".to_owned(),
            confirm_label: "Cancel copying",
        },
        ConfirmAction::CancelReencode => Question {
            title: "Cancel re-encoding?",
            message: "Files already re-encoded keep their new versions; the one in progress is discarded and its original left untouched.".to_owned(),
            confirm_label: "Cancel re-encoding",
        },
        ConfirmAction::CancelFlatten => Question {
            title: "Cancel moving?",
            message: "Files already moved stay where they are and can be moved back with Undo.".to_owned(),
            confirm_label: "Cancel moving",
        },
        ConfirmAction::CloseWindow => {
            let running = app.running_work();
            assert(running@.len() == app::names_of(running@).len());
            let message: String = if running.len() == 0 {
                "The current scan results will be lost.".to_owned()
            } else {
                "Still running: ".to_owned().concat(join(&running).as_str()).concat(
                    ". Closing stops it; anything already finished is kept.",
                )
            };
            Question { title: "Close dupe-rs?", message, confirm_label: "Close anyway" }
        },
    }
}

/// Texts are listed with a comma and a space between them.
pub proof fn law_lists_are_joined_by_commas(list: Seq<Seq<char>>, t: Seq<char>)
    ensures
        joined(seq![t]) == t,
        list.len() > 0 ==> joined(list.push(t)) == joined(list) + ", "@ + t,
{
    assert(list.push(t).drop_last() =~= list);
    assert(seq![t][0] == t);
}

/// Closing the window says what is still running, or what is lost.
pub proof fn law_closing_names_the_work(work: Seq<Seq<char>>)
    ensures
        ({
            let (title, message, button) = question_texts(work, ConfirmAction::CloseWindow);
            &&& title == "Close dupe-rs?"@
            &&& button == "Close anyway"@
            &&& work.len() > 0 ==> message == "Still running: "@ + joined(work)
                + ". Closing stops it; anything already finished is kept."@
            &&& work.len() == 0 ==> message == "The current scan results will be lost."@
        }),
{
}

/// Each action is asked about by what it stops, and says what becomes of what was
/// done so far. What else is running doesn't matter.
pub proof fn law_cancelling_is_asked_about(work: Seq<Seq<char>>, id: u64)
    ensures
        question_texts(work, ConfirmAction::CancelScan) == (
            "Cancel scan?"@,
            "The scan stops and only the duplicates found so far stay listed."@,
            "Cancel scan"@,
        ),
        question_texts(work, ConfirmAction::CancelIndexing) == (
            "Cancel indexing?"@,
            "Nothing from this indexing pass will be added to the reverse-search index."@,
            "Cancel indexing"@,
        ),
        question_texts(work, ConfirmAction::CancelDelete(id)) == (
            "Stop deleting?"@,
            "Files already deleted stay deleted; the rest are left alone."@,
            "Stop deleting"@,
        ),
        question_texts(work, ConfirmAction::CancelCopy) == (
            "Cancel copying?"@,
            "Folders already copied stay on the target and are still added to the index; the file in progress is removed."@,
            "Cancel copying"@,
        ),
        question_texts(work, ConfirmAction::CancelReencode) == (
            "Cancel re-encoding?"@,
            "Files already re-encoded keep their new versions; the one in progress is discarded and its original left untouched."@,
            "Cancel re-encoding"@,
        ),
        question_texts(work, ConfirmAction::CancelFlatten) == (
            "Cancel moving?"@,
            "Files already moved stay where they are and can be moved back with Undo."@,
            "Cancel moving"@,
        ),
{
}

} // verus!
