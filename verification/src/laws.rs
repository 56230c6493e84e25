use vstd::prelude::*;
use crate::record::RecordV;
use crate::codec::spec_encode;
use crate::decode::{spec_decode, lemma_decode_encode};
use crate::store::spec_record_path;

verus! {

// ---------------------------------------------------------------------------
// A model of the slice of the filesystem the store touches, and the laws the
// four operations obey over it. The executable half of each operation (path
// resolution, encoding, outcome translation) is verified in `store`; the
// lemmas here say what the composed operations do to the stored state.
// ---------------------------------------------------------------------------

/// The filesystem as the store sees it: the set of existing directories and
/// the text of each existing file.
#[verifier::ext_equal]
pub struct FsModel {
    pub dirs: Set<Seq<char>>,
    pub files: Map<Seq<char>, Seq<char>>,
}

/// The filesystem after a successful `create` or `save` that wrote `contents`
/// for session `id`: the base directory exists (created if it was missing)
/// and the session's file holds exactly `contents`, whatever was there
/// before.
pub open spec fn fs_after_write(
    fs: FsModel,
    base: Seq<char>,
    id: Seq<char>,
    contents: Seq<char>,
) -> FsModel {
    FsModel {
        dirs: fs.dirs.insert(base),
        files: fs.files.insert(spec_record_path(base, id), contents),
    }
}

/// The filesystem after a successful `delete` of session `id`.
pub open spec fn fs_after_delete(fs: FsModel, base: Seq<char>, id: Seq<char>) -> FsModel {
    FsModel { dirs: fs.dirs, files: fs.files.remove(spec_record_path(base, id)) }
}

/// Whether `delete` can succeed: exactly when the session's file exists.
/// Deleting an absent session surfaces a `Backend` error
/// (`store::interpret_delete`), while loading it merely yields absent.
pub open spec fn delete_succeeds(fs: FsModel, base: Seq<char>, id: Seq<char>) -> bool {
    fs.files.contains_key(spec_record_path(base, id))
}

/// What `load` observes for session `id`: the decoded record of the
/// session's file; absent when the file is absent or holds anything but the
/// canonical encoding of a well-formed record.
pub open spec fn load_view(fs: FsModel, base: Seq<char>, id: Seq<char>) -> Option<RecordV> {
    if fs.files.contains_key(spec_record_path(base, id)) {
        spec_decode(fs.files[spec_record_path(base, id)])
    } else {
        None
    }
}

/// Round trip: after storing a well-formed record, loading its session
/// yields the record itself, whatever the filesystem held before.
pub proof fn lemma_store_round_trip(fs: FsModel, base: Seq<char>, v: RecordV)
    requires
        v.wf(),
    ensures
        load_view(fs_after_write(fs, base, v.id, spec_encode(v)), base, v.id) == Some(v),
{
    lemma_decode_encode(v);
}

/// Saving the same record twice leaves the same filesystem state as saving
/// it once.
pub proof fn lemma_save_idempotent(fs: FsModel, base: Seq<char>, id: Seq<char>, contents: Seq<char>)
    ensures
        fs_after_write(fs_after_write(fs, base, id, contents), base, id, contents)
            == fs_after_write(fs, base, id, contents),
{
    assert(fs_after_write(fs_after_write(fs, base, id, contents), base, id, contents)
        =~~= fs_after_write(fs, base, id, contents));
}

/// Deleting a session and then loading it always yields absent.
pub proof fn lemma_delete_then_load(fs: FsModel, base: Seq<char>, id: Seq<char>)
    ensures
        load_view(fs_after_delete(fs, base, id), base, id) is None,
{
}

/// A session that was never stored cannot be deleted, and deleting twice
/// fails the second time: after a delete, the next delete of the same
/// session must fail.
pub proof fn lemma_delete_of_missing_fails(fs: FsModel, base: Seq<char>, id: Seq<char>)
    ensures
        !fs.files.contains_key(spec_record_path(base, id)) ==> !delete_succeeds(fs, base, id),
        !delete_succeeds(fs_after_delete(fs, base, id), base, id),
{
}

/// A stored session can be deleted.
pub proof fn lemma_delete_after_write(
    fs: FsModel,
    base: Seq<char>,
    id: Seq<char>,
    contents: Seq<char>,
)
    ensures
        delete_succeeds(fs_after_write(fs, base, id, contents), base, id),
{
}

/// Self-healing: even after the base directory was removed externally, a
/// `create` succeeds, recreates the directory, and the record is readable.
pub proof fn lemma_missing_directory_heals(fs: FsModel, base: Seq<char>, v: RecordV)
    requires
        v.wf(),
        !fs.dirs.contains(base),
    ensures
        fs_after_write(fs, base, v.id, spec_encode(v)).dirs.contains(base),
        load_view(fs_after_write(fs, base, v.id, spec_encode(v)), base, v.id) == Some(v),
{
    lemma_store_round_trip(fs, base, v);
}

/// Corruption tolerance: after any text that is no record's encoding is
/// placed at a session's storage location, loading that session yields
/// absent — never an error.
pub proof fn lemma_corruption_reads_absent(
    fs: FsModel,
    base: Seq<char>,
    id: Seq<char>,
    junk: Seq<char>,
)
    requires
        forall|v: RecordV| v.wf() ==> junk != spec_encode(v),
    ensures
        load_view(fs_after_write(fs, base, id, junk), base, id) is None,
{
    match spec_decode(junk) {
        Option::Some(v) => {
            assert(v.wf() && spec_encode(v) == junk);
        },
        Option::None => {},
    }
}

} // verus!
