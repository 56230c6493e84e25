use vstd::prelude::*;
use crate::record::{Record, SessionId, spec_id_ok};
use crate::codec::{spec_encode, encode_record};
use crate::decode::{spec_decode, decode_record};

verus! {

// ---------------------------------------------------------------------------
// The store: a base directory, a deterministic path per session, and the
// pure halves of the four operations. The filesystem calls themselves live
// outside the library; they hand their outcomes to the functions below,
// which decide the result the caller sees.
// ---------------------------------------------------------------------------

/// The error taxonomy: any environmental failure is `Backend`, any failure
/// to produce the durable representation is `Encode`. Decode failures are
/// deliberately absent: a corrupted record loads as absent, never as an
/// error.
#[derive(Debug)]
pub enum StoreError {
    Backend(String),
    Encode(String),
}

impl StoreError {
    pub fn message(&self) -> (r: &String)
        ensures
            (match self {
                StoreError::Backend(m) => r@ == m@,
                StoreError::Encode(m) => r@ == m@,
            }),
    {
        match self {
            StoreError::Backend(m) => m,
            StoreError::Encode(m) => m,
        }
    }
}

pub open spec fn msg_unsafe_id() -> Seq<char> {
    "session id is not a safe path component"@
}

pub open spec fn msg_write() -> Seq<char> {
    "failed to write record to file"@
}

pub open spec fn msg_delete() -> Seq<char> {
    "cannot delete record file"@
}

pub open spec fn msg_encode() -> Seq<char> {
    "failed to serialize record to json"@
}

pub open spec fn msg_mkdir_prefix() -> Seq<char> {
    "failed to create directory with the path '"@
}

/// The storage location of a session: `{base}/{id}.json`. Recomputed on
/// every operation; never persisted.
pub open spec fn spec_record_path(base: Seq<char>, id: Seq<char>) -> Seq<char> {
    base + "/"@ + id + ".json"@
}

/// A pending write: the resolved path and the full text to place there
/// (every write is a whole-file overwrite).
pub struct WritePlan {
    pub path: String,
    pub contents: String,
}

/// The file-backed session store: records are kept one file per session
/// under an immutable base directory, configured at construction.
#[derive(Debug, Clone)]
pub struct FileStore {
    pub base_path: &'static str,
}

impl FileStore {
    pub open spec fn base(&self) -> Seq<char> {
        self.base_path@
    }

    pub fn new(base_path: &'static str) -> (r: Self)
        ensures
            r.base() == base_path@,
    {
        FileStore { base_path }
    }

    /// The directory whose existence every operation must ensure first;
    /// it is created lazily, on each access, so an externally removed
    /// directory heals on the next operation.
    pub fn base_dir(&self) -> (r: &'static str)
        ensures
            r@ == self.base(),
    {
        self.base_path
    }

    /// Resolves a session's storage location. An identifier that is not
    /// safe as a path component is rejected rather than trusted.
    pub fn record_path(&self, id: &SessionId) -> (r: Result<String, StoreError>)
        ensures
            id.wf() ==> (r matches Ok(p) && p@ == spec_record_path(self.base(), id@)),
            !id.wf() ==> (r matches Err(e) && e matches StoreError::Backend(m) && m@
                == msg_unsafe_id()),
    {
        if !id.is_safe() {
            return Err(StoreError::Backend(String::from_str(
                "session id is not a safe path component",
            )));
        }
        let mut p = String::new();
        p.append(self.base_path);
        p.append("/");
        p.append(id.text.as_str());
        p.append(".json");
        Ok(p)
    }

    /// The pure half of `create` and `save`: resolve the path and encode
    /// the record. Succeeds exactly on well-formed records; the caller
    /// then writes `contents` to `path`, overwriting unconditionally.
    pub fn prepare_write(&self, record: &Record) -> (r: Result<WritePlan, StoreError>)
        ensures
            record.wf() ==> (r matches Ok(plan) && plan.path@ == spec_record_path(
                self.base(),
                record@.id,
            ) && plan.contents@ == spec_encode(record@)),
            !spec_id_ok(record@.id) ==> (r matches Err(e) && e matches StoreError::Backend(m)
                && m@ == msg_unsafe_id()),
            spec_id_ok(record@.id) && !record.wf() ==> (r matches Err(e) && e matches
                StoreError::Encode(m) && m@ == msg_encode()),
    {
        let path = match self.record_path(&record.id) {
            Result::Ok(p) => p,
            Result::Err(e) => {
                return Err(e);
            },
        };
        if !record.is_well_formed() {
            return Err(StoreError::Encode(String::from_str(
                "failed to serialize record to json",
            )));
        }
        let contents = encode_record(record);
        Ok(WritePlan { path, contents })
    }

    /// Translates the outcome of creating the base directory. A failure is
    /// a `Backend` error naming the attempted path.
    pub fn interpret_mkdir(&self, ok: bool) -> (r: Result<(), StoreError>)
        ensures
            ok <==> r is Ok,
            !ok ==> (r matches Err(e) && e matches StoreError::Backend(m) && m@
                == msg_mkdir_prefix() + self.base() + "'"@),
    {
        if ok {
            Ok(())
        } else {
            let mut m = String::from_str("failed to create directory with the path '");
            m.append(self.base_path);
            m.append("'");
            Err(StoreError::Backend(m))
        }
    }
}

impl Default for FileStore {
    /// The conventional store: records live under `sessions`, relative to
    /// the working directory.
    fn default() -> (r: Self)
        ensures
            r.base() == "sessions"@,
    {
        FileStore { base_path: "sessions" }
    }
}

/// Translates the outcome of the file write behind `create` and `save`.
pub fn interpret_write(ok: bool) -> (r: Result<(), StoreError>)
    ensures
        ok <==> r is Ok,
        !ok ==> (r matches Err(e) && e matches StoreError::Backend(m) && m@ == msg_write()),
{
    if ok {
        Ok(())
    } else {
        Err(StoreError::Backend(String::from_str("failed to write record to file")))
    }
}

/// Translates the outcome of the file removal behind `delete`: removing a
/// session that has no file — never created, or already deleted — is a
/// `Backend` error, unlike `load`, which treats the same absence as an
/// absent record. The asymmetry is the reference behaviour, kept on
/// purpose.
pub fn interpret_delete(removed: bool) -> (r: Result<(), StoreError>)
    ensures
        removed <==> r is Ok,
        !removed ==> (r matches Err(e) && e matches StoreError::Backend(m) && m@ == msg_delete()),
{
    if removed {
        Ok(())
    } else {
        Err(StoreError::Backend(String::from_str("cannot delete record file")))
    }
}

/// The pure half of `load`: the caller hands over the file's text, or
/// nothing if the read failed in any way. Every failure — missing file,
/// unreadable file, malformed contents — collapses into an absent record.
pub fn interpret_read(contents: Option<String>) -> (r: Option<Record>)
    ensures
        (match contents {
            Option::Some(text) => (match r {
                Option::Some(rec) => rec.wf() && spec_decode(text@) == Some(rec@),
                Option::None => spec_decode(text@) is None,
            }),
            Option::None => r is None,
        }),
{
    match contents {
        Option::Some(text) => decode_record(text.as_str()),
        Option::None => None,
    }
}

} // verus!
