//! The view of reverse search.

use crate::index_db::{self, IndexDb, IndexedFile};
use crate::text;
use vstd::prelude::*;

verus! {

/// How a volume is shown.
pub open spec fn volume_text(drive_letter: Seq<char>, volume_label: Seq<char>) -> Seq<char> {
    volume_label + " ("@ + drive_letter + ")"@
}

/// Shows the volume of an indexed file.
pub fn volume_of(file: &IndexedFile) -> (r: String)
    ensures
        r@ == volume_text(file.drive_letter@, file.volume_label@),
{
    file.volume_label.clone().concat(" (").concat(file.drive_letter.as_str()).concat(")")
}

/// The volumes with `", "` between them.
pub open spec fn volumes_text(volumes: Seq<(Seq<char>, Seq<char>)>) -> Seq<char>
    decreases volumes.len(),
{
    if volumes.len() == 0 {
        ""@
    } else if volumes.len() == 1 {
        volume_text(volumes[0].0, volumes[0].1)
    } else {
        volumes_text(volumes.drop_last()) + ", "@ + volume_text(
            volumes.last().0,
            volumes.last().1,
        )
    }
}

/// Says what has been indexed so far.
pub fn summarize(db: &IndexDb) -> (r: String)
    ensures
        r@ == (if index_db::volumes(db.entries@).len() == 0 {
            "No drives indexed yet."@
        } else {
            "Indexed: "@ + volumes_text(index_db::volumes(db.entries@)) + " — "@ + text::decimal(
                db.entries@.len(),
            ) + " file(s) total."@
        }),
{
    let drives = db.indexed_drives();
    let ghost all = index_db::volumes(db.entries@);
    assert(drives@.len() == index_db::pair_texts(drives@).len());
    if drives.len() == 0 {
        return "No drives indexed yet.".to_owned();
    }
    assert(all[0] == (drives@[0].0@, drives@[0].1@));
    let mut out: String = drives[0].1.clone().concat(" (").concat(drives[0].0.as_str()).concat(")");
    let mut i: usize = 1;
    assert(all.take(1) =~= seq![all[0]]);
    while i < drives.len()
        invariant
            1 <= i <= drives@.len(),
            all == index_db::pair_texts(drives@),
            out@ == volumes_text(all.take(i as int)),
        decreases drives@.len() - i,
    {
        assert(all.take(i + 1).drop_last() =~= all.take(i as int));
        assert(all[i as int] == (drives@[i as int].0@, drives@[i as int].1@));
        let own: String = drives[i].1.clone().concat(" (").concat(drives[i].0.as_str()).concat(")");
        out = out.concat(", ").concat(own.as_str());
        i = i + 1;
    }
    assert(all.take(all.len() as int) =~= all);
    "Indexed: ".to_owned().concat(out.as_str()).concat(" — ").concat(
        text::decimal_text(db.total_files() as u128).as_str(),
    ).concat(" file(s) total.")
}

/// Volumes are shown by their label with the drive letter in brackets, and listed
/// with a comma and a space between them.
pub proof fn law_volumes_are_listed(
    volumes: Seq<(Seq<char>, Seq<char>)>,
    v: (Seq<char>, Seq<char>),
)
    ensures
        volume_text(v.0, v.1) == v.1 + " ("@ + v.0 + ")"@,
        volumes_text(seq![v]) == volume_text(v.0, v.1),
        volumes.len() > 0 ==> volumes_text(volumes.push(v)) == volumes_text(volumes) + ", "@
            + volume_text(v.0, v.1),
{
    assert(volumes.push(v).drop_last() =~= volumes);
    assert(seq![v][0] == v);
}

} // verus!
