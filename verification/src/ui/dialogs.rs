//! Picking files and folders.

use crate::paths;
use vstd::prelude::*;

verus! {

/// What a file/folder picker was opened for, and so where its result goes.
#[derive(Clone, Copy, Debug, PartialEq, Eq, Structural)]
pub enum PickPurpose {
    ScanFolders,
    IndexFolders,
    SearchFile,
    FillSource,
    FillTarget,
    ReencodeFolders,
    FlattenRoot,
}

/// What is picked.
#[derive(Clone, Copy, Debug, PartialEq, Eq, Structural)]
pub enum PickKind {
    Folders,
    Folder,
    File,
}

impl PickPurpose {
    /// What is picked for this purpose.
    pub fn kind(self) -> (r: PickKind)
        ensures
            r == (match self {
                PickPurpose::ScanFolders | PickPurpose::IndexFolders
                | PickPurpose::ReencodeFolders => PickKind::Folders,
                PickPurpose::FillSource | PickPurpose::FillTarget | PickPurpose::FlattenRoot => {
                    PickKind::Folder
                },
                PickPurpose::SearchFile => PickKind::File,
            }),
    {
        match self {
            PickPurpose::ScanFolders | PickPurpose::IndexFolders | PickPurpose::ReencodeFolders => {
                PickKind::Folders
            },
            PickPurpose::FillSource | PickPurpose::FillTarget | PickPurpose::FlattenRoot => {
                PickKind::Folder
            },
            PickPurpose::SearchFile => PickKind::File,
        }
    }
}

/// Whether the list holds the folder.
pub open spec fn has_folder(list: Seq<String>, folder: Seq<char>) -> bool {
    exists|i: int| 0 <= i < list.len() && paths::same_path((#[trigger] list[i])@, folder)
}

/// The list with the folders that it doesn't hold yet.
pub open spec fn with_folders(list: Seq<String>, folders: Seq<String>) -> Seq<String>
    decreases folders.len(),
{
    if folders.len() == 0 {
        list
    } else {
        let before = with_folders(list, folders.drop_last());
        if has_folder(before, folders.last()@) {
            before
        } else {
            before.push(folders.last())
        }
    }
}

/// Adds the folders that the list doesn't hold yet.
pub fn add_folders(list: &mut Vec<String>, folders: Vec<String>)
    ensures
        final(list)@ == with_folders(old(list)@, folders@),
{
    let ghost before = list@;
    let ghost all = folders@;
    for folder in it: folders
        invariant
            it.seq() == all,
            list@ == with_folders(before, all.take(it.index() as int)),
    {
        assert(all.take(it.index() + 1).drop_last() =~= all.take(it.index() as int));
        let mut known: bool = false;
        let mut i: usize = 0;
        while i < list.len() && !known
            invariant
                i <= list@.len(),
                known ==> has_folder(list@, folder@),
                !known ==> forall|k: int|
                    0 <= k < i ==> !paths::same_path((#[trigger] list@[k])@, folder@),
            decreases list@.len() - i,
        {
            if paths::are_same_path(list[i].as_str(), folder.as_str()) {
                assert(paths::same_path(list@[i as int]@, folder@));
                known = true;
            }
            i = i + 1;
        }
        if !known {
            list.push(folder);
        }
    }
    assert(all.take(all.len() as int) =~= all);
}

/// Folders that are picked go behind those that are listed, each unless it is
/// listed already, however it is written.
pub proof fn law_folders_are_listed_once(list: Seq<String>, folders: Seq<String>, f: String)
    ensures
        with_folders(list, Seq::<String>::empty()) == list,
        with_folders(list, folders.push(f)) == (if exists|i: int|
            0 <= i < with_folders(list, folders).len() && paths::same_path(
                (#[trigger] with_folders(list, folders)[i])@,
                f@,
            ) {
            with_folders(list, folders)
        } else {
            with_folders(list, folders).push(f)
        }),
{
    assert(folders.push(f).drop_last() =~= folders);
}

} // verus!
