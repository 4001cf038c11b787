//! Replacing what a snapshot directory holds: the plan of removals and
//! writes, and what a directory holds once a plan is carried out.

use vstd::prelude::*;

use crate::snapshot::SnapshotFile;

verus! {

/// What has to be done to a snapshot directory to make it hold a history
/// and nothing else: the files to remove, then the files to write.
#[derive(Debug)]
pub struct WritePlan {
    /// The names of the files to remove, all of them before any writing.
    pub remove: Vec<String>,
    /// The files to write, in the order of the generations.
    pub files: Vec<SnapshotFile>,
}

/// A directory with the named files removed.
pub open spec fn directory_without(
    directory: Map<Seq<char>, Seq<u8>>,
    names: Seq<Seq<char>>,
) -> Map<Seq<char>, Seq<u8>> {
    directory.remove_keys(names.to_set())
}

/// A directory with the given files written, one after the other.
pub open spec fn directory_with(
    directory: Map<Seq<char>, Seq<u8>>,
    files: Seq<(Seq<char>, Seq<u8>)>,
) -> Map<Seq<char>, Seq<u8>>
    decreases files.len(),
{
    if files.len() == 0 {
        directory
    } else {
        directory_with(directory, files.drop_last()).insert(files.last().0, files.last().1)
    }
}

/// The directory after a plan is carried out: first the removals, then the
/// writes.
pub open spec fn directory_after(
    directory: Map<Seq<char>, Seq<u8>>,
    remove: Seq<Seq<char>>,
    files: Seq<(Seq<char>, Seq<u8>)>,
) -> Map<Seq<char>, Seq<u8>> {
    directory_with(directory_without(directory, remove), files)
}

/// Where the removals name every file of a directory, what the directory
/// holds afterwards is what was written and nothing else: no file of an
/// earlier, longer history is left behind.
pub proof fn lemma_plan_replaces(
    directory: Map<Seq<char>, Seq<u8>>,
    remove: Seq<Seq<char>>,
    files: Seq<(Seq<char>, Seq<u8>)>,
)
    requires
        forall|name: Seq<char>| directory.dom().contains(name) ==> remove.contains(name),
    ensures
        directory_after(directory, remove, files) == directory_with(Map::empty(), files),
{
    assert(directory_without(directory, remove) =~= Map::<Seq<char>, Seq<u8>>::empty()) by {
        assert forall|name: Seq<char>| !directory_without(directory, remove).dom().contains(
            name,
        ) by {
            if directory.dom().contains(name) {
                assert(remove.contains(name));
                assert(remove.to_set().contains(name));
            }
        }
    }
}

/// Carrying out the plan for one history twice leaves the directory as
/// carrying it out once does, whatever it held before either time.
pub proof fn lemma_write_twice(
    directory: Map<Seq<char>, Seq<u8>>,
    first_remove: Seq<Seq<char>>,
    second_remove: Seq<Seq<char>>,
    files: Seq<(Seq<char>, Seq<u8>)>,
)
    requires
        forall|name: Seq<char>| directory.dom().contains(name) ==> first_remove.contains(name),
        forall|name: Seq<char>|
            directory_after(directory, first_remove, files).dom().contains(name)
                ==> second_remove.contains(name),
    ensures
        directory_after(directory_after(directory, first_remove, files), second_remove, files)
            == directory_after(directory, first_remove, files),
{
    lemma_plan_replaces(directory, first_remove, files);
    lemma_plan_replaces(directory_after(directory, first_remove, files), second_remove, files);
}

} // verus!
