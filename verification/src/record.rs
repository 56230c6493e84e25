use vstd::prelude::*;

verus! {

/// A character that is accepted inside a session identifier.
///
/// Identifiers are untrusted, externally generated tokens that end up as a
/// filesystem path component, so only characters that are harmless there are
/// allowed: ASCII letters, digits, `-`, `_` and `=`. In particular path
/// separators, `.` (traversal), quotes and control characters are excluded.
pub open spec fn spec_id_char(c: char) -> bool {
    (97 <= c as u32 && c as u32 <= 122)  // 'a' ..= 'z'
    || (65 <= c as u32 && c as u32 <= 90)  // 'A' ..= 'Z'
    || (48 <= c as u32 && c as u32 <= 57)  // '0' ..= '9'
    || c == '-' || c == '_' || c == '='
}

/// A character that is accepted inside a data key: printable ASCII with the
/// two JSON string metacharacters (`"` and `\`) excluded, so keys can be
/// embedded in the stored text verbatim, with no escaping.
pub open spec fn spec_key_char(c: char) -> bool {
    32 <= c as u32 && c as u32 <= 126 && c != '"' && c != '\\'
}

pub open spec fn spec_id_ok(s: Seq<char>) -> bool {
    s.len() > 0 && forall|i: int| 0 <= i < s.len() ==> spec_id_char(s[i])
}

pub open spec fn spec_key_ok(s: Seq<char>) -> bool {
    s.len() > 0 && forall|i: int| 0 <= i < s.len() ==> spec_key_char(s[i])
}

/// An opaque, externally generated session identifier.
pub struct SessionId {
    pub text: String,
}

impl View for SessionId {
    type V = Seq<char>;

    open spec fn view(&self) -> Seq<char> {
        self.text@
    }
}

impl SessionId {
    /// An identifier is safe when every one of its characters may stand in a
    /// path component and in a JSON string without escaping.
    pub open spec fn wf(&self) -> bool {
        spec_id_ok(self@)
    }

    pub fn new(text: String) -> (r: SessionId)
        ensures
            r@ == text@,
    {
        SessionId { text }
    }

    /// Decides identifier safety; the store rejects unsafe identifiers
    /// instead of silently trusting them as path components.
    pub fn is_safe(&self) -> (r: bool)
        ensures
            r == self.wf(),
    {
        let n = self.text.as_str().unicode_len();
        if n == 0 {
            return false;
        }
        let mut i: usize = 0;
        while i < n
            invariant
                0 <= i <= n,
                n == self@.len(),
                forall|j: int| 0 <= j < i ==> spec_id_char(self@[j]),
            decreases n - i,
        {
            let c = self.text.as_str().get_char(i);
            if !id_char_allowed(c) {
                return false;
            }
            i += 1;
        }
        true
    }
}

pub fn id_char_allowed(c: char) -> (r: bool)
    ensures
        r == spec_id_char(c),
{
    let u = c as u32;
    (97 <= u && u <= 122) || (65 <= u && u <= 90) || (48 <= u && u <= 57) || c == '-' || c == '_'
        || c == '='
}

pub fn key_char_allowed(c: char) -> (r: bool)
    ensures
        r == spec_key_char(c),
{
    let u = c as u32;
    32 <= u && u <= 126 && c != '"' && c != '\\'
}

/// One entry of a record's session-data mapping: a key and an integer value.
pub struct DataEntry {
    pub key: String,
    pub value: i64,
}

impl View for DataEntry {
    type V = (Seq<char>, int);

    open spec fn view(&self) -> (Seq<char>, int) {
        (self.key@, self.value as int)
    }
}

impl DataEntry {
    pub open spec fn wf(&self) -> bool {
        entry_v_wf(self@)
    }
}

/// The mathematical model of a record: the identifier's characters, the
/// expiry timestamp, and the data entries as key/value pairs.
#[verifier::ext_equal]
pub struct RecordV {
    pub id: Seq<char>,
    pub expiry: int,
    pub data: Seq<(Seq<char>, int)>,
}

pub open spec fn entry_v_wf(e: (Seq<char>, int)) -> bool {
    spec_key_ok(e.0) && i64::MIN <= e.1 <= i64::MAX
}

impl RecordV {
    pub open spec fn wf(&self) -> bool {
        &&& spec_id_ok(self.id)
        &&& i64::MIN <= self.expiry <= i64::MAX
        &&& forall|i: int| 0 <= i < self.data.len() ==> entry_v_wf(#[trigger] self.data[i])
    }
}

/// The unit of storage: an identifier, an expiry timestamp (seconds since the
/// Unix epoch) and the session-data entries. The store keeps the entries in
/// order and does not interpret them; mapping semantics (such as rejecting a
/// repeated key) are the caller's concern.
pub struct Record {
    pub id: SessionId,
    pub expiry: i64,
    pub data: Vec<DataEntry>,
}

impl View for Record {
    type V = RecordV;

    open spec fn view(&self) -> RecordV {
        RecordV {
            id: self.id@,
            expiry: self.expiry as int,
            data: self.data@.map_values(|e: DataEntry| e@),
        }
    }
}

impl Record {
    pub open spec fn wf(&self) -> bool {
        self@.wf()
    }

    /// Decides well-formedness: a record that fails this check holds data
    /// that the durable representation cannot carry.
    pub fn is_well_formed(&self) -> (r: bool)
        ensures
            r == self.wf(),
    {
        if !self.id.is_safe() {
            return false;
        }
        let n = self.data.len();
        let mut i: usize = 0;
        while i < n
            invariant
                0 <= i <= n,
                n == self.data@.len(),
                forall|j: int| 0 <= j < i ==> (#[trigger] self.data@[j]).wf(),
            decreases n - i,
        {
            if !key_ok(&self.data[i].key) {
                proof {
                    assert(self@.data[i as int] == self.data@[i as int]@);
                }
                return false;
            }
            i += 1;
        }
        true
    }
}

pub fn key_ok(key: &String) -> (r: bool)
    ensures
        r == spec_key_ok(key@),
{
    let n = key.as_str().unicode_len();
    if n == 0 {
        return false;
    }
    let mut i: usize = 0;
    while i < n
        invariant
            0 <= i <= n,
            n == key@.len(),
            forall|j: int| 0 <= j < i ==> spec_key_char(key@[j]),
        decreases n - i,
    {
        let c = key.as_str().get_char(i);
        if !key_char_allowed(c) {
            return false;
        }
        i += 1;
    }
    true
}

} // verus!
