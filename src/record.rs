use vstd::prelude::*;

verus! {

/// The kind of a captured value.
#[derive(Debug, Clone, Copy, PartialEq, Eq, Structural)]
pub enum RecordType {
    Image,
    Text,
}

/// What a store operation can fail with.
#[derive(Debug, Clone, Copy, PartialEq, Eq, Structural)]
pub enum StoreError {
    /// No live record has the requested id.
    NotFound,
    /// The store cannot take the change (its id space is used up).
    StorageFailure,
    /// A persisted kind tag is neither `image` nor `text`.
    InvalidKind,
}

/// The persisted tag of a kind.
pub open spec fn kind_tag(kind: RecordType) -> Seq<char> {
    match kind {
        RecordType::Image => seq!['i', 'm', 'a', 'g', 'e'],
        RecordType::Text => seq!['t', 'e', 'x', 't'],
    }
}

impl RecordType {
    /// The persisted tag of this kind: `image` or `text`.
    pub fn to_string(&self) -> (r: String)
        ensures
            r@ == kind_tag(*self),
    {
        match self {
            RecordType::Image => {
                let r = String::from_str("image");
                proof {
                    reveal_strlit("image");
                }
                assert(r@ =~= kind_tag(*self));
                r
            },
            RecordType::Text => {
                let r = String::from_str("text");
                proof {
                    reveal_strlit("text");
                }
                assert(r@ =~= kind_tag(*self));
                r
            },
        }
    }

    /// Parses a persisted tag; anything but `image` or `text` is corruption.
    pub fn from_string(s: &str) -> (r: Result<RecordType, StoreError>)
        ensures
            s@ == kind_tag(RecordType::Image) ==> r == Ok::<RecordType, StoreError>(RecordType::Image),
            s@ == kind_tag(RecordType::Text) ==> r == Ok::<RecordType, StoreError>(RecordType::Text),
            s@ != kind_tag(RecordType::Image) && s@ != kind_tag(RecordType::Text) ==> r == Err::<RecordType, StoreError>(StoreError::InvalidKind),
    {
        let n = s.unicode_len();
        if n == 5 && s.get_char(0) == 'i' && s.get_char(1) == 'm' && s.get_char(2) == 'a'
            && s.get_char(3) == 'g' && s.get_char(4) == 'e' {
            assert(s@ =~= kind_tag(RecordType::Image));
            Ok(RecordType::Image)
        } else if n == 4 && s.get_char(0) == 't' && s.get_char(1) == 'e' && s.get_char(2) == 'x'
            && s.get_char(3) == 't' {
            assert(s@ =~= kind_tag(RecordType::Text));
            Ok(RecordType::Text)
        } else {
            Err(StoreError::InvalidKind)
        }
    }
}

/// One live entry of the history.
///
/// For an image the value is the path of its blob, `<image dir>/<hash>.png`.
/// `updated_at` is the time of the latest observation, in microseconds.
#[derive(Debug, Clone)]
pub struct ClipboardRecord {
    pub id: i32,
    pub record_type: RecordType,
    pub record_value: String,
    pub record_hash: Option<String>,
    pub updated_at: i64,
    pub pinned: bool,
}

/// A value submitted to the store, with its content hash where it has one.
pub struct NewClipboardRecord<'a> {
    pub record_type: &'a RecordType,
    pub record_hash: Option<&'a str>,
    pub record_value: &'a str,
}

/// Copies an optional string.
fn copy_opt_string(s: &Option<String>) -> (r: Option<String>)
    ensures
        r == *s,
{
    match s {
        Some(v) => Some(v.clone()),
        None => None,
    }
}

impl ClipboardRecord {
    /// A field-for-field copy of this record.
    pub fn duplicate(&self) -> (r: ClipboardRecord)
        ensures
            r == *self,
    {
        ClipboardRecord {
            id: self.id,
            record_type: self.record_type,
            record_value: self.record_value.clone(),
            record_hash: copy_opt_string(&self.record_hash),
            updated_at: self.updated_at,
            pinned: self.pinned,
        }
    }
}

/// Distinct kinds have distinct tags, so each tag names exactly one kind and
/// `from_string` undoes `to_string`.
pub proof fn lemma_kind_tag_round_trip(a: RecordType, b: RecordType)
    ensures
        kind_tag(a) == kind_tag(b) <==> a == b,
{
    if a != b {
        assert(kind_tag(a).len() != kind_tag(b).len());
    }
}

} // verus!
