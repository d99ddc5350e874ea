use vstd::prelude::*;
use vstd::utf8::encode_utf8;

use crate::record::{ClipboardRecord, NewClipboardRecord, RecordType, StoreError};
use crate::clock::local_now_micros;
use crate::hasher::{sha256_hex, sha256_hex_of};
use crate::query::{contains_ignore_case, insert_sorted, matches_keyword, sorted_for_display};
use crate::retention::{evict, evicted, ids_unique, lemma_retention};

verus! {

/// How an upsert was applied.
#[derive(Debug, Clone, Copy, PartialEq, Eq, Structural)]
pub enum Applied {
    /// No record held the value: a new one was added.
    Inserted,
    /// A record held the value: only its time was refreshed.
    Updated,
}

/// The abstract state of a store.
pub struct StoreView {
    pub records: Seq<ClipboardRecord>,
    pub next_id: int,
    pub max_records: Option<nat>,
    pub img_dir: Seq<char>,
}

/// The characters of an optional string.
pub open spec fn hash_view(h: Option<String>) -> Option<Seq<char>> {
    match h {
        Some(s) => Some(s@),
        None => None,
    }
}

/// The characters of an optional string slice.
pub open spec fn str_hash_view(h: Option<&str>) -> Option<Seq<char>> {
    match h {
        Some(s) => Some(s@),
        None => None,
    }
}

/// Row `r` already holds this content: the same value, or the same hash.
pub open spec fn same_content(r: ClipboardRecord, value: Seq<char>, hash: Option<Seq<char>>) -> bool {
    r.record_value@ == value || (hash is Some && hash_view(r.record_hash) == hash)
}

/// Rows are well formed: unique ids below `next_id`, and no two rows share a
/// value or a hash.
pub open spec fn rows_wf(rows: Seq<ClipboardRecord>, next_id: int) -> bool {
    &&& ids_unique(rows)
    &&& forall|i: int| 0 <= i < rows.len() ==> 0 < #[trigger] rows[i].id < next_id
    &&& forall|i: int, j: int|
        0 <= i < rows.len() && 0 <= j < rows.len() && i != j
            ==> #[trigger] rows[i].record_value@ != #[trigger] rows[j].record_value@
    &&& forall|i: int, j: int|
        0 <= i < rows.len() && 0 <= j < rows.len() && i != j && (#[trigger] rows[i].record_hash) is Some
            ==> hash_view(rows[i].record_hash) != hash_view(#[trigger] rows[j].record_hash)
}

/// A store state is well formed: its rows are, and ids are left to hand out
/// within `i32`.
pub open spec fn view_wf(v: StoreView) -> bool {
    &&& rows_wf(v.records, v.next_id)
    &&& 1 <= v.next_id <= i32::MAX
}

/// The row as it is after an observation of `value` at `now`.
pub open spec fn refreshed(r: ClipboardRecord, value: Seq<char>, hash: Option<Seq<char>>, now: i64) -> ClipboardRecord {
    if same_content(r, value, hash) {
        ClipboardRecord { updated_at: now, ..r }
    } else {
        r
    }
}

/// `r` is the row that a first observation of `value` at `now` creates.
pub open spec fn is_fresh_record(
    r: ClipboardRecord,
    id: int,
    kind: RecordType,
    value: Seq<char>,
    hash: Option<Seq<char>>,
    now: i64,
) -> bool {
    &&& r.id == id
    &&& r.record_type == kind
    &&& r.record_value@ == value
    &&& hash_view(r.record_hash) == hash
    &&& r.updated_at == now
    &&& !r.pinned
}

/// The rows left once retention has run under an optional bound.
pub open spec fn retained(rows: Seq<ClipboardRecord>, max: Option<nat>) -> Seq<ClipboardRecord> {
    match max {
        Some(m) => evicted(rows, m),
        None => rows,
    }
}

/// Some row holds this content.
pub open spec fn holds_content(v: StoreView, value: Seq<char>, hash: Option<Seq<char>>) -> bool {
    exists|i: int| 0 <= i < v.records.len() && same_content(#[trigger] v.records[i], value, hash)
}

/// The upsert rule, from state `pre` to state `post` with result `res`.
pub open spec fn saved(
    pre: StoreView,
    post: StoreView,
    kind: RecordType,
    value: Seq<char>,
    hash: Option<Seq<char>>,
    now: i64,
    res: Result<Applied, StoreError>,
) -> bool {
    if holds_content(pre, value, hash) {
        &&& res == Ok::<Applied, StoreError>(Applied::Updated)
        &&& post.next_id == pre.next_id
        &&& post.max_records == pre.max_records
        &&& post.records == pre.records.map_values(|r: ClipboardRecord| refreshed(r, value, hash, now))
    } else if pre.next_id >= i32::MAX {
        &&& res == Err::<Applied, StoreError>(StoreError::StorageFailure)
        &&& post == pre
    } else {
        &&& res == Ok::<Applied, StoreError>(Applied::Inserted)
        &&& post.next_id == pre.next_id + 1
        &&& post.max_records == pre.max_records
        &&& exists|r: ClipboardRecord|
            #[trigger] is_fresh_record(r, pre.next_id, kind, value, hash, now)
                && post.records == retained(pre.records.push(r), pre.max_records)
    }
}

/// Text up to this many bytes is deduplicated by its value alone.
pub const MIN_TEXT_HASHING_SIZE: usize = 50;

/// The hash that deduplicates a text: none for short text, else the digest
/// of its UTF-8 bytes.
pub open spec fn text_hash(text: Seq<char>) -> Option<Seq<char>> {
    if encode_utf8(text).len() <= MIN_TEXT_HASHING_SIZE {
        None
    } else {
        Some(sha256_hex_of(encode_utf8(text)))
    }
}

/// The path of the blob with this hash: `<dir>/<hash>.png`.
pub open spec fn blob_path(dir: Seq<char>, hash: Seq<char>) -> Seq<char> {
    dir + seq!['/'] + hash + seq!['.', 'p', 'n', 'g']
}

/// The outcome of saving an image: how the upsert went, and the path under
/// which the blob belongs. When the image was already held, the caller need
/// not write the blob again.
pub struct SavedImage {
    pub applied: Applied,
    pub path: String,
}

/// The upsert result within the result of saving an image.
pub open spec fn image_applied(res: Result<SavedImage, StoreError>) -> Result<Applied, StoreError> {
    match res {
        Ok(s) => Ok(s.applied),
        Err(e) => Err(e),
    }
}

/// Some row has this id.
pub open spec fn has_id(rows: Seq<ClipboardRecord>, id: i32) -> bool {
    exists|i: int| 0 <= i < rows.len() && (#[trigger] rows[i]).id == id
}

/// The index of the row with this id.
pub open spec fn index_of(rows: Seq<ClipboardRecord>, id: i32) -> int {
    choose|i: int| 0 <= i < rows.len() && (#[trigger] rows[i]).id == id
}

/// The rows with the pinned flag of the row with this id set to `flag`.
pub open spec fn with_pinned(rows: Seq<ClipboardRecord>, id: i32, flag: bool) -> Seq<ClipboardRecord> {
    rows.map_values(|r: ClipboardRecord| if r.id == id { ClipboardRecord { pinned: flag, ..r } } else { r })
}

/// The rows without the row with this id.
pub open spec fn without_id(rows: Seq<ClipboardRecord>, id: i32) -> Seq<ClipboardRecord> {
    if has_id(rows, id) {
        rows.remove(index_of(rows, id))
    } else {
        rows
    }
}

/// A live image row names the blob with this hash.
pub open spec fn references_blob(rows: Seq<ClipboardRecord>, hash: Seq<char>) -> bool {
    exists|i: int|
        0 <= i < rows.len() && (#[trigger] rows[i]).record_type == RecordType::Image
            && hash_view(rows[i].record_hash) == Some(hash)
}

/// A blob with this hash is an orphan: no live image row names it.
pub open spec fn is_orphan(rows: Seq<ClipboardRecord>) -> spec_fn(Seq<char>) -> bool {
    |h: Seq<char>| !references_blob(rows, h)
}

/// The characters of each string.
pub open spec fn strings_view(v: Seq<String>) -> Seq<Seq<char>> {
    v.map_values(|s: String| s@)
}

/// A row set that holds only rows of a well-formed one, with unique ids, is
/// well formed.
proof fn lemma_rows_wf_sub(rows: Seq<ClipboardRecord>, sub: Seq<ClipboardRecord>, next_id: int)
    requires
        rows_wf(rows, next_id),
        ids_unique(sub),
        forall|x: ClipboardRecord| #[trigger] sub.contains(x) ==> rows.contains(x),
    ensures
        rows_wf(sub, next_id),
{
    assert forall|i: int| 0 <= i < sub.len() implies 0 < #[trigger] sub[i].id < next_id by {
        assert(sub.contains(sub[i]));
    }
    assert forall|i: int, j: int|
        0 <= i < sub.len() && 0 <= j < sub.len() && i != j
        implies #[trigger] sub[i].record_value@ != #[trigger] sub[j].record_value@ by {
        assert(sub.contains(sub[i]));
        assert(sub.contains(sub[j]));
        let a = choose|a: int| 0 <= a < rows.len() && rows[a] == sub[i];
        let b = choose|b: int| 0 <= b < rows.len() && rows[b] == sub[j];
        assert(sub[i].id != sub[j].id);
    }
    assert forall|i: int, j: int|
        0 <= i < sub.len() && 0 <= j < sub.len() && i != j && (#[trigger] sub[i].record_hash) is Some
        implies hash_view(sub[i].record_hash) != hash_view(#[trigger] sub[j].record_hash) by {
        assert(sub.contains(sub[i]));
        assert(sub.contains(sub[j]));
        let a = choose|a: int| 0 <= a < rows.len() && rows[a] == sub[i];
        let b = choose|b: int| 0 <= b < rows.len() && rows[b] == sub[j];
        assert(sub[i].id != sub[j].id);
        assert(rows[a].record_hash == sub[i].record_hash);
        assert(rows[b].record_hash == sub[j].record_hash);
    }
}

/// Retention keeps a well-formed row set well formed.
proof fn lemma_retained_wf(rows: Seq<ClipboardRecord>, max: Option<nat>, next_id: int)
    requires
        rows_wf(rows, next_id),
    ensures
        rows_wf(retained(rows, max), next_id),
        forall|x: ClipboardRecord| #[trigger] retained(rows, max).contains(x) ==> rows.contains(x),
{
    if let Some(m) = max {
        lemma_retention(rows, m);
        lemma_rows_wf_sub(rows, evicted(rows, m), next_id);
    }
}

/// Tests whether row `r` already holds this content.
fn content_matches(r: &ClipboardRecord, value: &String, hash: &Option<String>) -> (b: bool)
    ensures
        b == same_content(*r, value@, hash_view(*hash)),
{
    if r.record_value == *value {
        return true;
    }
    match (hash, &r.record_hash) {
        (Some(h), Some(rh)) => *h == *rh,
        _ => false,
    }
}

/// Two rows may live side by side: their ids and values differ, and so do
/// their hashes where the first has one.
pub open spec fn compatible(a: ClipboardRecord, b: ClipboardRecord) -> bool {
    &&& a.id != b.id
    &&& a.record_value@ != b.record_value@
    &&& !(a.record_hash is Some && hash_view(a.record_hash) == hash_view(b.record_hash))
}

/// Tests whether two rows may live side by side.
fn rows_compatible(a: &ClipboardRecord, b: &ClipboardRecord) -> (r: bool)
    ensures
        r == compatible(*a, *b),
{
    if a.id == b.id || a.record_value == b.record_value {
        return false;
    }
    match (&a.record_hash, &b.record_hash) {
        (Some(x), Some(y)) => *x != *y,
        _ => true,
    }
}

/// Tests whether saved rows are well formed.
fn check_rows(rows: &Vec<ClipboardRecord>, next_id: i32) -> (r: bool)
    ensures
        r == rows_wf(rows@, next_id as int),
{
    let n = rows.len();
    let mut i: usize = 0;
    while i < n
        invariant
            n == rows@.len(),
            i <= n,
            forall|a: int| 0 <= a < i ==> 0 < #[trigger] rows@[a].id < next_id,
            forall|a: int, b: int|
                0 <= a < i && 0 <= b < n && a != b ==> compatible(#[trigger] rows@[a], #[trigger] rows@[b]),
        decreases n - i,
    {
        let a = &rows[i];
        if a.id <= 0 || a.id >= next_id {
            return false;
        }
        let mut j: usize = 0;
        while j < n
            invariant
                n == rows@.len(),
                i < n,
                j <= n,
                *a == rows@[i as int],
                forall|b: int| 0 <= b < j && b != i ==> compatible(rows@[i as int], #[trigger] rows@[b]),
            decreases n - j,
        {
            if j != i {
                let ok = rows_compatible(a, &rows[j]);
                if !ok {
                    proof {
                        let x = i as int;
                        let y = j as int;
                        assert(!compatible(rows@[x], rows@[y]));
                        if rows@[x].id == rows@[y].id {
                            assert(!ids_unique(rows@));
                        } else if rows@[x].record_value@ == rows@[y].record_value@ {
                        } else {
                            assert(rows@[x].record_hash is Some);
                        }
                    }
                    return false;
                }
            }
            j += 1;
        }
        i += 1;
    }
    proof {
        assert forall|a: int, b: int| 0 <= a < n && 0 <= b < n && a != b implies rows@[a].id != rows@[b].id by {
            assert(compatible(rows@[a], rows@[b]));
        }
        assert forall|a: int, b: int|
            0 <= a < n && 0 <= b < n && a != b
            implies #[trigger] rows@[a].record_value@ != #[trigger] rows@[b].record_value@ by {
            assert(compatible(rows@[a], rows@[b]));
        }
        assert forall|a: int, b: int|
            0 <= a < n && 0 <= b < n && a != b && (#[trigger] rows@[a].record_hash) is Some
            implies hash_view(rows@[a].record_hash) != hash_view(#[trigger] rows@[b].record_hash) by {
            assert(compatible(rows@[a], rows@[b]));
        }
    }
    true
}

/// The deduplicating, bounded history.
pub struct RecordStore {
    records: Vec<ClipboardRecord>,
    next_id: i32,
    max_records: Option<u64>,
    /// The directory of the content-addressed image blobs.
    pub img_dir: String,
}

impl View for RecordStore {
    type V = StoreView;

    closed spec fn view(&self) -> StoreView {
        StoreView {
            records: self.records@,
            next_id: self.next_id as int,
            max_records: match self.max_records {
                Some(m) => Some(m as nat),
                None => None,
            },
            img_dir: self.img_dir@,
        }
    }
}

impl RecordStore {
    pub open spec fn wf(&self) -> bool {
        view_wf(self@)
    }

    /// An empty store without a bound on its size.
    pub fn new(img_dir: String) -> (r: RecordStore)
        ensures
            r.wf(),
            r@.records.len() == 0,
            r@.next_id == 1,
            r@.max_records is None,
            r@.img_dir == img_dir@,
    {
        RecordStore { records: Vec::new(), next_id: 1, max_records: None, img_dir }
    }

    /// A store rebuilt from saved rows and the next id to hand out. Rows that
    /// are not well formed (an id that is not positive and below `next_id`,
    /// two rows with one id, one value or one hash) are refused.
    pub fn from_records(img_dir: String, next_id: i32, records: Vec<ClipboardRecord>) -> (res: Result<RecordStore, StoreError>)
        ensures
            res is Ok <==> (1 <= next_id && rows_wf(records@, next_id as int)),
            res is Err ==> res == Err::<RecordStore, StoreError>(StoreError::StorageFailure),
            res matches Ok(s) ==> s.wf() && s@ == (StoreView {
                records: records@,
                next_id: next_id as int,
                max_records: None,
                img_dir: img_dir@,
            }),
    {
        if next_id < 1 || !check_rows(&records, next_id) {
            return Err(StoreError::StorageFailure);
        }
        Ok(RecordStore { records, next_id, max_records: None, img_dir })
    }

    /// Every row, in the order of storage.
    pub fn records(&self) -> (r: Vec<ClipboardRecord>)
        ensures
            r@ == self@.records,
    {
        let mut out: Vec<ClipboardRecord> = Vec::new();
        let mut i: usize = 0;
        while i < self.records.len()
            invariant
                i <= self.records.len(),
                out@ == self.records@.subrange(0, i as int),
            decreases self.records.len() - i,
        {
            out.push(self.records[i].duplicate());
            proof {
                assert(out@ =~= self.records@.subrange(0, i + 1));
            }
            i += 1;
        }
        proof {
            assert(self.records@.subrange(0, self.records@.len() as int) =~= self.records@);
        }
        out
    }

    /// The id that the next new row gets.
    pub fn next_id(&self) -> (r: i32)
        ensures
            r == self@.next_id,
    {
        self.next_id
    }

    /// The bound that retention applies, if one is set.
    pub fn max_records(&self) -> (r: Option<u64>)
        ensures
            r matches Some(m) ==> self@.max_records == Some(m as nat),
            r is None ==> self@.max_records is None,
    {
        self.max_records
    }

    /// Sets the bound that retention applies from the next insertion on.
    pub fn update_max_records_trigger(&mut self, max_records: u64) -> (r: Result<(), StoreError>)
        requires
            old(self).wf(),
        ensures
            final(self).wf(),
            r is Ok,
            final(self)@ == (StoreView { max_records: Some(max_records as nat), ..old(self)@ }),
    {
        self.max_records = Some(max_records);
        Ok(())
    }

    /// Starts retention with the given bound.
    pub fn init(&mut self, max_records: u64) -> (r: Result<(), StoreError>)
        requires
            old(self).wf(),
        ensures
            final(self).wf(),
            r is Ok,
            final(self)@ == (StoreView { max_records: Some(max_records as nat), ..old(self)@ }),
    {
        self.update_max_records_trigger(max_records)
    }

    /// The content hash of a payload.
    pub fn calc_hash(&self, bytes: &[u8]) -> (r: String)
        ensures
            r@ == sha256_hex_of(bytes@),
    {
        sha256_hex(bytes)
    }

    /// The path of the blob with this hash.
    pub fn image_path(&self, hash: &str) -> (r: String)
        ensures
            r@ == blob_path(self@.img_dir, hash@),
    {
        let mut p = self.img_dir.clone();
        p.append("/");
        p.append(hash);
        p.append(".png");
        proof {
            reveal_strlit("/");
            reveal_strlit(".png");
            assert(p@ =~= blob_path(self@.img_dir, hash@));
        }
        p
    }

    /// Upserts a text observed at `now`; text longer than the hashing size is
    /// deduplicated by its hash.
    pub fn save_text_at(&mut self, text: &str, now: i64) -> (res: Result<Applied, StoreError>)
        requires
            old(self).wf(),
        ensures
            final(self).wf(),
            final(self)@.img_dir == old(self)@.img_dir,
            saved(old(self)@, final(self)@, RecordType::Text, text@, text_hash(text@), now, res),
    {
        let kind = RecordType::Text;
        let bytes = text.as_bytes();
        assert(bytes@ == encode_utf8(text@));
        let n = bytes.len();
        if n <= MIN_TEXT_HASHING_SIZE {
            let new = NewClipboardRecord { record_type: &kind, record_hash: None, record_value: text };
            self.save(&new, now)
        } else {
            let h = sha256_hex(bytes);
            let new = NewClipboardRecord {
                record_type: &kind,
                record_hash: Some(h.as_str()),
                record_value: text,
            };
            self.save(&new, now)
        }
    }

    /// Upserts a text observed now.
    pub fn save_text(&mut self, text: &str) -> (res: Result<Applied, StoreError>)
        requires
            old(self).wf(),
        ensures
            final(self).wf(),
            final(self)@.img_dir == old(self)@.img_dir,
            exists|now: i64| saved(old(self)@, final(self)@, RecordType::Text, text@, text_hash(text@), now, res),
    {
        let now = local_now_micros();
        self.save_text_at(text, now)
    }

    /// Upserts an image observed at `now`, keyed by the hash of its bytes.
    pub fn save_image_at(&mut self, image_bytes: &[u8], now: i64) -> (res: Result<SavedImage, StoreError>)
        requires
            old(self).wf(),
        ensures
            final(self).wf(),
            final(self)@.img_dir == old(self)@.img_dir,
            saved(
                old(self)@,
                final(self)@,
                RecordType::Image,
                blob_path(old(self)@.img_dir, sha256_hex_of(image_bytes@)),
                Some(sha256_hex_of(image_bytes@)),
                now,
                image_applied(res),
            ),
            res matches Ok(s) ==> s.path@ == blob_path(old(self)@.img_dir, sha256_hex_of(image_bytes@)),
    {
        let kind = RecordType::Image;
        let h = sha256_hex(image_bytes);
        let path = self.image_path(h.as_str());
        let new = NewClipboardRecord {
            record_type: &kind,
            record_hash: Some(h.as_str()),
            record_value: path.as_str(),
        };
        match self.save(&new, now) {
            Ok(applied) => Ok(SavedImage { applied, path }),
            Err(e) => Err(e),
        }
    }

    /// Upserts an image observed now.
    pub fn save_image(&mut self, image_bytes: &[u8]) -> (res: Result<SavedImage, StoreError>)
        requires
            old(self).wf(),
        ensures
            final(self).wf(),
            final(self)@.img_dir == old(self)@.img_dir,
            exists|now: i64|
                saved(
                    old(self)@,
                    final(self)@,
                    RecordType::Image,
                    blob_path(old(self)@.img_dir, sha256_hex_of(image_bytes@)),
                    Some(sha256_hex_of(image_bytes@)),
                    now,
                    image_applied(res),
                ),
            res matches Ok(s) ==> s.path@ == blob_path(old(self)@.img_dir, sha256_hex_of(image_bytes@)),
    {
        let now = local_now_micros();
        self.save_image_at(image_bytes, now)
    }

    /// The index of the row with this id.
    fn find_index(&self, id: i32) -> (r: Option<usize>)
        requires
            self.wf(),
        ensures
            r is None <==> !has_id(self@.records, id),
            r matches Some(i) ==> i < self@.records.len() && i == index_of(self@.records, id),
    {
        let mut i: usize = 0;
        while i < self.records.len()
            invariant
                self.wf(),
                i <= self.records.len(),
                forall|j: int| 0 <= j < i ==> (#[trigger] self.records@[j]).id != id,
            decreases self.records.len() - i,
        {
            if self.records[i].id == id {
                proof {
                    let k = index_of(self@.records, id);
                    assert(self@.records[i as int].id == id);
                    assert(has_id(self@.records, id));
                    assert(ids_unique(self@.records));
                    assert(0 <= k < self@.records.len());
                    assert(self@.records[k].id == id);
                    if k != i as int {
                        assert(self@.records[k].id != self@.records[i as int].id);
                    }
                }
                return Some(i);
            }
            i += 1;
        }
        None
    }

    /// Sets the pinned flag of the row with this id.
    fn set_pinned(&mut self, id: i32, flag: bool) -> (res: Result<ClipboardRecord, StoreError>)
        requires
            old(self).wf(),
        ensures
            final(self).wf(),
            has_id(old(self)@.records, id) <==> res is Ok,
            res is Err ==> res == Err::<ClipboardRecord, StoreError>(StoreError::NotFound) && final(self)@ == old(self)@,
            res is Ok ==> final(self)@ == (StoreView { records: with_pinned(old(self)@.records, id, flag), ..old(self)@ }),
            res matches Ok(r) ==> r.id == id && r.pinned == flag && final(self)@.records.contains(r),
    {
        match self.find_index(id) {
            None => Err(StoreError::NotFound),
            Some(i) => {
                let ghost pre = self@;
                let mut r = self.records[i].duplicate();
                r.pinned = flag;
                let out = r.duplicate();
                self.records.set(i, r);
                proof {
                    let target = with_pinned(pre.records, id, flag);
                    assert forall|j: int| 0 <= j < target.len() implies self@.records[j] == target[j] by {
                        if j != i {
                            assert(pre.records[j].id != id);
                        }
                    }
                    assert(self@.records =~= target);
                    assert forall|a: int| 0 <= a < target.len() implies #[trigger] target[a].id == pre.records[a].id
                        && target[a].record_value == pre.records[a].record_value
                        && target[a].record_hash == pre.records[a].record_hash by {}
                    assert(self@.records[i as int] == out);
                }
                Ok(out)
            },
        }
    }

    /// Pins the row with this id, which retention then never deletes.
    pub fn pin(&mut self, id: &i32) -> (res: Result<ClipboardRecord, StoreError>)
        requires
            old(self).wf(),
        ensures
            final(self).wf(),
            has_id(old(self)@.records, *id) <==> res is Ok,
            res is Err ==> res == Err::<ClipboardRecord, StoreError>(StoreError::NotFound) && final(self)@ == old(self)@,
            res is Ok ==> final(self)@ == (StoreView { records: with_pinned(old(self)@.records, *id, true), ..old(self)@ }),
            res matches Ok(r) ==> r.id == *id && r.pinned && final(self)@.records.contains(r),
    {
        self.set_pinned(*id, true)
    }

    /// Unpins the row with this id.
    pub fn unpin(&mut self, id: &i32) -> (res: Result<ClipboardRecord, StoreError>)
        requires
            old(self).wf(),
        ensures
            final(self).wf(),
            has_id(old(self)@.records, *id) <==> res is Ok,
            res is Err ==> res == Err::<ClipboardRecord, StoreError>(StoreError::NotFound) && final(self)@ == old(self)@,
            res is Ok ==> final(self)@ == (StoreView { records: with_pinned(old(self)@.records, *id, false), ..old(self)@ }),
            res matches Ok(r) ==> r.id == *id && !r.pinned && final(self)@.records.contains(r),
    {
        self.set_pinned(*id, false)
    }

    /// Deletes the row with this id; the result is the number of rows deleted.
    pub fn delete(&mut self, id: &i32) -> (res: Result<usize, StoreError>)
        requires
            old(self).wf(),
        ensures
            final(self).wf(),
            res == Ok::<usize, StoreError>(if has_id(old(self)@.records, *id) { 1 } else { 0 }),
            final(self)@ == (StoreView { records: without_id(old(self)@.records, *id), ..old(self)@ }),
    {
        match self.find_index(*id) {
            None => {
                proof {
                    assert(self@ == (StoreView { records: without_id(self@.records, *id), ..self@ }));
                }
                Ok(0)
            },
            Some(i) => {
                let ghost pre = self@;
                self.records.remove(i);
                proof {
                    crate::retention::lemma_remove_keeps_ids_unique(pre.records, i as int);
                    lemma_rows_wf_sub(pre.records, self@.records, pre.next_id);
                }
                Ok(1)
            },
        }
    }

    /// The row with this id.
    pub fn get_record(&self, id: &i32) -> (res: Result<ClipboardRecord, StoreError>)
        requires
            self.wf(),
        ensures
            has_id(self@.records, *id) <==> res is Ok,
            res is Err ==> res == Err::<ClipboardRecord, StoreError>(StoreError::NotFound),
            res matches Ok(r) ==> r == self@.records[index_of(self@.records, *id)],
    {
        match self.find_index(*id) {
            None => Err(StoreError::NotFound),
            Some(i) => Ok(self.records[i].duplicate()),
        }
    }

    /// The rows whose value contains `keyword`, ignoring ASCII case (every
    /// row for the empty keyword), pinned rows first, then the most recently
    /// updated first.
    pub fn get_records(&self, keyword: &str) -> (r: Vec<ClipboardRecord>)
        requires
            self.wf(),
        ensures
            sorted_for_display(r@),
            forall|x: ClipboardRecord|
                #[trigger] r@.contains(x) <==> (self@.records.contains(x) && matches_keyword(x, keyword@)),
    {
        let kw = keyword.as_bytes();
        let mut out: Vec<ClipboardRecord> = Vec::new();
        let mut i: usize = 0;
        while i < self.records.len()
            invariant
                self.wf(),
                i <= self.records.len(),
                kw@ == encode_utf8(keyword@),
                sorted_for_display(out@),
                forall|z: ClipboardRecord|
                    #[trigger] out@.contains(z) <==> (exists|j: int|
                        0 <= j < i && self.records@[j] == z && matches_keyword(z, keyword@)),
            decreases self.records.len() - i,
        {
            let rec = &self.records[i];
            let hay = rec.record_value.as_str().as_bytes();
            if contains_ignore_case(hay, kw) {
                proof {
                    assert forall|k: int| 0 <= k < out@.len() implies (#[trigger] out@[k]).id != rec.id by {
                        assert(out@.contains(out@[k]));
                        let j = choose|j: int| 0 <= j < i && self.records@[j] == out@[k] && matches_keyword(out@[k], keyword@);
                        assert(ids_unique(self@.records));
                        assert(self@.records[j] == out@[k]);
                    }
                }
                let ghost prev = out@;
                insert_sorted(&mut out, rec.duplicate());
                proof {
                    assert forall|z: ClipboardRecord|
                        #[trigger] out@.contains(z) <==> (exists|j: int|
                            0 <= j < i + 1 && self.records@[j] == z && matches_keyword(z, keyword@)) by {
                        if z == *rec {
                            assert(self.records@[i as int] == z);
                        }
                        if exists|j: int| 0 <= j < i + 1 && self.records@[j] == z && matches_keyword(z, keyword@) {
                            let j = choose|j: int| 0 <= j < i + 1 && self.records@[j] == z && matches_keyword(z, keyword@);
                            if j < i {
                                assert(prev.contains(z));
                            }
                        }
                    }
                }
            } else {
                proof {
                    assert forall|z: ClipboardRecord|
                        #[trigger] out@.contains(z) <==> (exists|j: int|
                            0 <= j < i + 1 && self.records@[j] == z && matches_keyword(z, keyword@)) by {
                        if exists|j: int| 0 <= j < i + 1 && self.records@[j] == z && matches_keyword(z, keyword@) {
                            let j = choose|j: int| 0 <= j < i + 1 && self.records@[j] == z && matches_keyword(z, keyword@);
                            if j == i {
                                assert(!matches_keyword(*rec, keyword@));
                            }
                        }
                    }
                }
            }
            i += 1;
        }
        proof {
            assert forall|x: ClipboardRecord|
                #[trigger] out@.contains(x) <==> (self@.records.contains(x) && matches_keyword(x, keyword@)) by {
                if self@.records.contains(x) && matches_keyword(x, keyword@) {
                    let j = choose|j: int| 0 <= j < self@.records.len() && self@.records[j] == x;
                    assert(self.records@[j] == x);
                }
            }
        }
        out
    }

    /// Tells whether a live image row names the blob with this hash.
    fn references(&self, hash: &String) -> (r: bool)
        ensures
            r == references_blob(self@.records, hash@),
    {
        let mut i: usize = 0;
        while i < self.records.len()
            invariant
                i <= self.records.len(),
                forall|j: int|
                    0 <= j < i ==> !((#[trigger] self@.records[j]).record_type == RecordType::Image
                        && hash_view(self@.records[j].record_hash) == Some(hash@)),
            decreases self.records.len() - i,
        {
            let rec = &self.records[i];
            if rec.record_type == RecordType::Image {
                match &rec.record_hash {
                    Some(h) => {
                        if *h == *hash {
                            assert(self@.records[i as int] == *rec);
                            return true;
                        }
                    },
                    None => {},
                }
            }
            i += 1;
        }
        false
    }

    /// The hashes, in their order, of the blobs that no live image row names.
    pub fn filter_dangling_images(&self, hashes: &Vec<String>) -> (r: Result<Vec<String>, StoreError>)
        ensures
            r matches Ok(v) && strings_view(v@) == strings_view(hashes@).filter(is_orphan(self@.records)),
    {
        let ghost hv = strings_view(hashes@);
        let ghost pred = is_orphan(self@.records);
        let mut out: Vec<String> = Vec::new();
        let mut i: usize = 0;
        while i < hashes.len()
            invariant
                i <= hashes.len(),
                hv == strings_view(hashes@),
                pred == is_orphan(self@.records),
                strings_view(out@) == hv.subrange(0, i as int).filter(pred),
            decreases hashes.len() - i,
        {
            let h = &hashes[i];
            let referenced = self.references(h);
            proof {
                assert(hv.subrange(0, i + 1) =~= hv.subrange(0, i as int).push(h@));
                hv.subrange(0, i as int).lemma_filter_push(h@, pred);
            }
            if !referenced {
                let ghost before = out@;
                out.push(h.clone());
                proof {
                    assert(strings_view(out@) =~= strings_view(before).push(h@));
                }
            }
            i += 1;
        }
        proof {
            assert(hv.subrange(0, hashes@.len() as int) =~= hv);
        }
        Ok(out)
    }

    /// Upserts a value: refreshes the time of every row that holds the same
    /// content, or else adds a new unpinned row and applies retention.
    pub fn save(&mut self, new: &NewClipboardRecord, now: i64) -> (res: Result<Applied, StoreError>)
        requires
            old(self).wf(),
        ensures
            final(self).wf(),
            final(self)@.img_dir == old(self)@.img_dir,
            saved(
                old(self)@,
                final(self)@,
                *new.record_type,
                new.record_value@,
                str_hash_view(new.record_hash),
                now,
                res,
            ),
    {
        let value = new.record_value.to_owned();
        let hash: Option<String> = match new.record_hash {
            Some(h) => Some(h.to_owned()),
            None => None,
        };
        let ghost hv = str_hash_view(new.record_hash);
        assert(hash_view(hash) == hv);
        let ghost pre = self@;
        let ghost target = pre.records.map_values(|r: ClipboardRecord| refreshed(r, value@, hv, now));
        let mut found = false;
        let mut i: usize = 0;
        while i < self.records.len()
            invariant
                i <= self.records.len(),
                self.records@.len() == pre.records.len(),
                self.next_id == pre.next_id,
                self.max_records == old(self).max_records,
                self.img_dir == old(self).img_dir,
                hash_view(hash) == hv,
                pre == old(self)@,
                target == pre.records.map_values(|r: ClipboardRecord| refreshed(r, value@, hv, now)),
                forall|j: int| 0 <= j < i ==> self.records@[j] == target[j],
                forall|j: int| i <= j < self.records@.len() ==> self.records@[j] == pre.records[j],
                found <==> exists|j: int| 0 <= j < i && same_content(#[trigger] pre.records[j], value@, hv),
            decreases self.records.len() - i,
        {
            let hit = content_matches(&self.records[i], &value, &hash);
            proof {
                assert(self.records@[i as int] == pre.records[i as int]);
                assert(hit == same_content(pre.records[i as int], value@, hv));
                if !hit {
                    assert forall|j: int| 0 <= j < i + 1 && same_content(#[trigger] pre.records[j], value@, hv)
                        implies j < i by {}
                }
            }
            if hit {
                let mut r = self.records[i].duplicate();
                r.updated_at = now;
                self.records.set(i, r);
                found = true;
            }
            i += 1;
        }
        if found {
            proof {
                assert(self.records@ =~= target);
                assert(holds_content(pre, value@, hv));
                assert forall|a: int| 0 <= a < target.len() implies #[trigger] target[a].id == pre.records[a].id
                    && target[a].record_value == pre.records[a].record_value
                    && target[a].record_hash == pre.records[a].record_hash by {}
                assert(rows_wf(target, pre.next_id));
            }
            return Ok(Applied::Updated);
        }
        proof {
            assert forall|j: int| 0 <= j < pre.records.len() implies self.records@[j] == pre.records[j] by {
                assert(!same_content(pre.records[j], value@, hv));
                assert(target[j] == refreshed(pre.records[j], value@, hv, now));
            }
            assert(self.records@ =~= pre.records);
            assert(!holds_content(pre, value@, hv));
        }
        if self.next_id == i32::MAX {
            return Err(StoreError::StorageFailure);
        }
        let rec = ClipboardRecord {
            id: self.next_id,
            record_type: *new.record_type,
            record_value: value,
            record_hash: hash,
            updated_at: now,
            pinned: false,
        };
        let ghost pushed = pre.records.push(rec);
        self.records.push(rec);
        self.next_id = self.next_id + 1;
        proof {
            assert(is_fresh_record(rec, pre.next_id, *new.record_type, new.record_value@, hv, now));
            assert forall|a: int| 0 <= a < pre.records.len() implies #[trigger] pushed[a] == pre.records[a] by {}
            assert forall|a: int| 0 <= a < pre.records.len() implies !same_content(
                #[trigger] pre.records[a],
                value@,
                hv,
            ) by {}
            assert(ids_unique(pushed)) by {
                assert forall|a: int, b: int|
                    0 <= a < pushed.len() && 0 <= b < pushed.len() && a != b implies pushed[a].id
                    != pushed[b].id by {
                    if a < pre.records.len() && b < pre.records.len() {
                        assert(pushed[a] == pre.records[a]);
                        assert(pushed[b] == pre.records[b]);
                    } else if a < pre.records.len() {
                        assert(pushed[a] == pre.records[a]);
                        assert(0 < pre.records[a].id < pre.next_id);
                    } else {
                        assert(pushed[b] == pre.records[b]);
                        assert(0 < pre.records[b].id < pre.next_id);
                    }
                }
            }
            assert forall|a: int, b: int|
                0 <= a < pushed.len() && 0 <= b < pushed.len() && a != b implies #[trigger] pushed[a].record_value@
                != #[trigger] pushed[b].record_value@ by {
                if a < pre.records.len() && b < pre.records.len() {
                } else if a < pre.records.len() {
                    assert(!same_content(pre.records[a], value@, hv));
                } else {
                    assert(!same_content(pre.records[b], value@, hv));
                }
            }
            assert forall|a: int, b: int|
                0 <= a < pushed.len() && 0 <= b < pushed.len() && a != b && (#[trigger] pushed[a].record_hash) is Some
                implies hash_view(pushed[a].record_hash) != hash_view(#[trigger] pushed[b].record_hash) by {
                if a < pre.records.len() && b < pre.records.len() {
                } else if a < pre.records.len() {
                    assert(!same_content(pre.records[a], value@, hv));
                } else {
                    assert(!same_content(pre.records[b], value@, hv));
                }
            }
            assert forall|a: int| 0 <= a < pushed.len() implies 0 < #[trigger] pushed[a].id < self.next_id by {
                if a < pre.records.len() {
                    assert(pushed[a] == pre.records[a]);
                }
            }
            assert(rows_wf(pushed, self.next_id as int));
            lemma_retained_wf(pushed, pre.max_records, self.next_id as int);
        }
        match self.max_records {
            Some(m) => {
                evict(&mut self.records, m);
            },
            None => {},
        }
        Ok(Applied::Inserted)
    }
}

/// Right after a save at `now`, every row that holds the saved content was
/// stamped `now`, provided the save succeeded and the value was not dropped by
/// retention (there was room, or it was already held).
proof fn lemma_saved_rows_stamped(
    pre: StoreView,
    post: StoreView,
    kind: RecordType,
    value: Seq<char>,
    hash: Option<Seq<char>>,
    now: i64,
    res: Result<Applied, StoreError>,
)
    requires
        view_wf(pre),
        saved(pre, post, kind, value, hash, now, res),
        res is Ok,
        holds_content(pre, value, hash) || pre.max_records is None || pre.records.len() < pre.max_records->0,
    ensures
        holds_content(post, value, hash),
        forall|i: int| 0 <= i < post.records.len() && same_content(#[trigger] post.records[i], value, hash)
            ==> post.records[i].updated_at == now,
{
    if holds_content(pre, value, hash) {
        let k = choose|i: int| 0 <= i < pre.records.len() && same_content(#[trigger] pre.records[i], value, hash);
        assert(post.records[k] == refreshed(pre.records[k], value, hash, now));
        assert forall|i: int| 0 <= i < post.records.len() && same_content(#[trigger] post.records[i], value, hash)
            implies post.records[i].updated_at == now by {
            assert(post.records[i] == refreshed(pre.records[i], value, hash, now));
        }
    } else {
        let r = choose|r: ClipboardRecord|
            #[trigger] is_fresh_record(r, pre.next_id, kind, value, hash, now)
                && post.records == retained(pre.records.push(r), pre.max_records);
        let pushed = pre.records.push(r);
        if let Some(m) = pre.max_records {
            lemma_retention(pushed, m);
        }
        assert(post.records == pushed);
        assert(same_content(post.records[pre.records.len() as int], value, hash));
        assert forall|i: int| 0 <= i < post.records.len() && same_content(#[trigger] post.records[i], value, hash)
            implies post.records[i].updated_at == now by {
            if i < pre.records.len() {
                assert(post.records[i] == pre.records[i]);
            }
        }
    }
}

/// Saving the same content twice leaves one row set of the same size: the
/// second save only refreshes the time of the rows that hold the content, to
/// the second time, which is later than the first when the saves are apart in
/// time. A value saved without a hash is held by exactly one row, and so is
/// any content that the store did not hold before the first save.
pub proof fn lemma_repeat_save(
    s0: StoreView,
    s1: StoreView,
    s2: StoreView,
    kind: RecordType,
    value: Seq<char>,
    hash: Option<Seq<char>>,
    t1: i64,
    t2: i64,
    r1: Result<Applied, StoreError>,
    r2: Result<Applied, StoreError>,
)
    requires
        view_wf(s0),
        view_wf(s1),
        view_wf(s2),
        saved(s0, s1, kind, value, hash, t1, r1),
        saved(s1, s2, kind, value, hash, t2, r2),
        r1 is Ok,
        holds_content(s0, value, hash) || s0.max_records is None || s0.records.len() < s0.max_records->0,
    ensures
        r2 == Ok::<Applied, StoreError>(Applied::Updated),
        s2.records.len() == s1.records.len(),
        s2.next_id == s1.next_id,
        forall|i: int|
            0 <= i < s2.records.len() ==> (#[trigger] s2.records[i]).id == s1.records[i].id
                && s2.records[i].record_value == s1.records[i].record_value
                && s2.records[i].record_hash == s1.records[i].record_hash
                && s2.records[i].record_type == s1.records[i].record_type
                && s2.records[i].pinned == s1.records[i].pinned,
        forall|i: int|
            0 <= i < s2.records.len() && !same_content(#[trigger] s1.records[i], value, hash) ==> s2.records[i]
                == s1.records[i],
        holds_content(s2, value, hash),
        forall|i: int|
            0 <= i < s2.records.len() && same_content(#[trigger] s1.records[i], value, hash) ==> s2.records[i].updated_at
                == t2 && s1.records[i].updated_at == t1,
        hash is None ==> forall|i: int, j: int|
            0 <= i < s2.records.len() && 0 <= j < s2.records.len() && same_content(#[trigger] s2.records[i], value, hash)
                && same_content(#[trigger] s2.records[j], value, hash) ==> i == j,
        !holds_content(s0, value, hash) ==> s2.records.len() == s0.records.len() + 1 && forall|i: int|
            0 <= i < s2.records.len() && same_content(#[trigger] s2.records[i], value, hash) ==> i == s0.records.len(),
{
    lemma_saved_rows_stamped(s0, s1, kind, value, hash, t1, r1);
    assert(holds_content(s1, value, hash));
    assert forall|i: int| 0 <= i < s2.records.len() implies #[trigger] s2.records[i] == refreshed(
        s1.records[i],
        value,
        hash,
        t2,
    ) by {}
    lemma_saved_rows_stamped(s1, s2, kind, value, hash, t2, r2);
    if !holds_content(s0, value, hash) {
        let r = choose|r: ClipboardRecord|
            #[trigger] is_fresh_record(r, s0.next_id, kind, value, hash, t1)
                && s1.records == retained(s0.records.push(r), s0.max_records);
        let pushed = s0.records.push(r);
        if let Some(m) = s0.max_records {
            lemma_retention(pushed, m);
        }
        assert(s1.records == pushed);
        assert forall|i: int| 0 <= i < s2.records.len() && same_content(#[trigger] s2.records[i], value, hash)
            implies i == s0.records.len() by {
            assert(s2.records[i] == refreshed(s1.records[i], value, hash, t2));
            if i < s0.records.len() {
                assert(s1.records[i] == s0.records[i]);
            }
        }
    }
}

/// An insertion under a bound never deletes a pinned row; if it overflows the
/// bound it leaves exactly the bound, unless only pinned rows are left; and
/// every row it deletes is unpinned and older than every unpinned row that
/// stays. Rows that stay are unchanged, and nothing but the new row is added.
pub proof fn lemma_insert_retention(
    pre: StoreView,
    post: StoreView,
    kind: RecordType,
    value: Seq<char>,
    hash: Option<Seq<char>>,
    now: i64,
    res: Result<Applied, StoreError>,
    max: nat,
)
    requires
        view_wf(pre),
        saved(pre, post, kind, value, hash, now, res),
        res == Ok::<Applied, StoreError>(Applied::Inserted),
        pre.max_records == Some(max),
    ensures
        forall|x: ClipboardRecord| #[trigger] pre.records.contains(x) && x.pinned ==> post.records.contains(x),
        pre.records.len() + 1 <= max ==> post.records.len() == pre.records.len() + 1,
        pre.records.len() + 1 > max ==> (post.records.len() == max || (post.records.len() > max && !crate::retention::has_unpinned(post.records))),
        forall|x: ClipboardRecord|
            #[trigger] post.records.contains(x) ==> pre.records.contains(x) || is_fresh_record(x, pre.next_id, kind, value, hash, now),
        forall|x: ClipboardRecord, y: ClipboardRecord|
            #[trigger] pre.records.contains(x) && !post.records.contains(x) && #[trigger] post.records.contains(y) && !y.pinned
            ==> !x.pinned && crate::retention::older(x, y),
{
    let r = choose|r: ClipboardRecord|
        #[trigger] is_fresh_record(r, pre.next_id, kind, value, hash, now)
            && post.records == retained(pre.records.push(r), pre.max_records);
    let pushed = pre.records.push(r);
    assert(ids_unique(pushed)) by {
        assert forall|a: int, b: int| 0 <= a < pushed.len() && 0 <= b < pushed.len() && a != b implies pushed[a].id
            != pushed[b].id by {
            if a < pre.records.len() {
                assert(pushed[a] == pre.records[a]);
                assert(0 < pre.records[a].id < pre.next_id);
            }
            if b < pre.records.len() {
                assert(pushed[b] == pre.records[b]);
                assert(0 < pre.records[b].id < pre.next_id);
            }
        }
    }
    lemma_retention(pushed, max);
    assert forall|x: ClipboardRecord| #[trigger] pre.records.contains(x) implies pushed.contains(x) by {
        let k = choose|k: int| 0 <= k < pre.records.len() && pre.records[k] == x;
        assert(pushed[k] == x);
    }
    assert forall|x: ClipboardRecord| #[trigger] post.records.contains(x) implies pre.records.contains(x)
        || is_fresh_record(x, pre.next_id, kind, value, hash, now) by {
        assert(pushed.contains(x));
        let k = choose|k: int| 0 <= k < pushed.len() && pushed[k] == x;
        if k < pre.records.len() {
            assert(pre.records[k] == x);
        }
    }
}

/// Once its row is deleted, no row has the id.
pub proof fn lemma_deleted_not_found(rows: Seq<ClipboardRecord>, id: i32)
    requires
        ids_unique(rows),
    ensures
        !has_id(without_id(rows, id), id),
        forall|x: ClipboardRecord| #[trigger] without_id(rows, id).contains(x) ==> rows.contains(x) && x.id != id,
{
    if has_id(rows, id) {
        let k = index_of(rows, id);
        crate::retention::lemma_remove_keeps_ids_unique(rows, k);
        let rest = rows.remove(k);
        if has_id(rest, id) {
            let j = choose|j: int| 0 <= j < rest.len() && (#[trigger] rest[j]).id == id;
            assert(rest.contains(rest[j]));
            let a = choose|a: int| 0 <= a < rows.len() && rows[a] == rest[j];
            assert(rows[a].id == rows[k].id);
            assert(a == k);
        }
        assert forall|x: ClipboardRecord| #[trigger] rest.contains(x) implies rows.contains(x) && x.id != id by {
            let j = choose|j: int| 0 <= j < rest.len() && rest[j] == x;
            assert(rest[j].id != id);
        }
    } else {
        assert forall|x: ClipboardRecord| #[trigger] rows.contains(x) implies x.id != id by {
            let j = choose|j: int| 0 <= j < rows.len() && rows[j] == x;
        }
    }
}

/// The garbage collector deletes exactly the blobs that no live image row
/// names: a listed hash is reported if and only if it is an orphan, and a
/// second pass over the report reports it all again.
pub proof fn lemma_orphans(rows: Seq<ClipboardRecord>, hashes: Seq<Seq<char>>)
    ensures
        forall|h: Seq<char>|
            #[trigger] hashes.filter(is_orphan(rows)).contains(h) <==> (hashes.contains(h) && !references_blob(rows, h)),
        hashes.filter(is_orphan(rows)).filter(is_orphan(rows)) == hashes.filter(is_orphan(rows)),
{
    broadcast use vstd::seq_lib::group_filter_ensures;

    let f = hashes.filter(is_orphan(rows));
    assert forall|h: Seq<char>| #[trigger] f.contains(h) <==> (hashes.contains(h) && !references_blob(rows, h)) by {
        if hashes.contains(h) && !references_blob(rows, h) {
            let k = choose|k: int| 0 <= k < hashes.len() && hashes[k] == h;
            assert(is_orphan(rows)(hashes[k]));
            hashes.lemma_filter_contains(is_orphan(rows), k);
        }
        if f.contains(h) {
            let k = choose|k: int| 0 <= k < f.len() && f[k] == h;
            hashes.lemma_filter_pred(is_orphan(rows), k);
            hashes.lemma_filter_contains_rev(is_orphan(rows), h);
            assert(is_orphan(rows)(h));
        }
    }
    lemma_filter_all(f, is_orphan(rows));
}

/// Filtering by a predicate that every element meets changes nothing.
proof fn lemma_filter_all(s: Seq<Seq<char>>, p: spec_fn(Seq<char>) -> bool)
    requires
        forall|i: int| 0 <= i < s.len() ==> p(#[trigger] s[i]),
    ensures
        s.filter(p) == s,
    decreases s.len(),
{
    reveal(Seq::filter);
    if s.len() > 0 {
        let front = s.drop_last();
        assert forall|i: int| 0 <= i < front.len() implies p(#[trigger] front[i]) by {
            assert(front[i] == s[i]);
        }
        lemma_filter_all(front, p);
        assert(s.filter(p) == front.filter(p).push(s.last()));
        assert(front.push(s.last()) =~= s);
    }
}

} // verus!
