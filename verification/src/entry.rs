use vstd::prelude::*;
use crate::dir_path::{DirPath, PathModel, is_child_of};

verus! {

/// One entry of a directory listing, reduced to what the traversal reads:
/// a subdirectory with its path, a regular file with its byte length, or
/// anything else (symlinks among them), which the traversal ignores.
pub enum FsEntry {
    Dir(DirPath),
    File(u64),
    Other,
}

/// The paths of the subdirectory entries of a listing, in listing order.
pub open spec fn dirs_of(es: Seq<FsEntry>) -> Seq<PathModel>
    decreases es.len(),
{
    if es.len() == 0 {
        Seq::empty()
    } else {
        let rest = dirs_of(es.drop_first());
        match es.first() {
            FsEntry::Dir(d) => seq![d@] + rest,
            _ => rest,
        }
    }
}

/// The sum of the byte lengths of the file entries of a listing.
pub open spec fn sum_sizes(es: Seq<FsEntry>) -> nat
    decreases es.len(),
{
    if es.len() == 0 {
        0
    } else {
        (match es.first() {
            FsEntry::File(n) => n as nat,
            _ => 0nat,
        }) + sum_sizes(es.drop_first())
    }
}

/// A well-formed listing of the directory `dir`: every subdirectory entry
/// names an immediate child of `dir`, and no child is listed twice.
pub open spec fn entries_ok(dir: PathModel, es: Seq<FsEntry>) -> bool {
    &&& forall|i: int| 0 <= i < dirs_of(es).len() ==> is_child_of(#[trigger] dirs_of(es)[i], dir)
    &&& forall|i: int, j: int|
        0 <= i < j < dirs_of(es).len() ==> #[trigger] dirs_of(es)[i] != #[trigger] dirs_of(es)[j]
}

/// Unfolds `dirs_of` and `sum_sizes` one step along the suffixes of a
/// listing, as a loop over the listing consumes it from the front.
pub proof fn lemma_entry_skip(es: Seq<FsEntry>, i: int)
    requires
        0 <= i < es.len(),
    ensures
        dirs_of(es.skip(i)) == (match es[i] {
            FsEntry::Dir(d) => seq![d@] + dirs_of(es.skip(i + 1)),
            _ => dirs_of(es.skip(i + 1)),
        }),
        sum_sizes(es.skip(i)) == (match es[i] {
            FsEntry::File(n) => n as nat,
            _ => 0nat,
        }) + sum_sizes(es.skip(i + 1)),
{
    assert(es.skip(i).len() > 0);
    assert(es.skip(i).first() == es[i]);
    assert(es.skip(i).drop_first() =~= es.skip(i + 1));
}

} // verus!
