//! The document table of a node: what is stored under each id, and the rules
//! by which documents are written, found, listed and searched. How the table
//! is kept on disk is the business of whoever owns it.

use vstd::prelude::*;
use vstd::slice::slice_to_vec;
use vstd::string::StringSliceAdditionalSpecFns;
use vstd::utf8::encode_utf8;

verus! {

/// How many documents a listing or a search returns where no limit is given.
pub const DEFAULT_LIMIT: i64 = 100;

/// A stored document.
#[derive(Debug)]
pub struct StoredDocument {
    pub id: String,
    pub data: Vec<u8>,
    pub metadata: String,
    /// When the id was first stored, in seconds since the Unix epoch.
    pub created_at: i64,
    /// When the id was last stored, in seconds since the Unix epoch.
    pub updated_at: i64,
}

/// A stored document as plain values.
pub struct DocumentView {
    pub id: Seq<char>,
    pub data: Seq<u8>,
    pub metadata: Seq<char>,
    pub created_at: i64,
    pub updated_at: i64,
}

impl View for StoredDocument {
    type V = DocumentView;

    open spec fn view(&self) -> DocumentView {
        DocumentView {
            id: self.id@,
            data: self.data@,
            metadata: self.metadata@,
            created_at: self.created_at,
            updated_at: self.updated_at,
        }
    }
}

impl Clone for StoredDocument {
    fn clone(&self) -> (r: Self)
        ensures
            r@ == self@,
    {
        let data = self.data.clone();
        assert(data@ =~= self.data@);
        StoredDocument {
            id: self.id.clone(),
            data,
            metadata: self.metadata.clone(),
            created_at: self.created_at,
            updated_at: self.updated_at,
        }
    }
}

/// The views of a list of documents.
pub open spec fn views_of(documents: Seq<StoredDocument>) -> Seq<DocumentView> {
    Seq::new(documents.len(), |i: int| documents[i]@)
}

/// The index of the first row at or after `from` that has the id `id`, or
/// `rows.len()` where there is none.
pub open spec fn row_index(rows: Seq<DocumentView>, id: Seq<char>, from: int) -> int
    decreases rows.len() - from,
{
    if from < 0 || from >= rows.len() {
        rows.len() as int
    } else if rows[from].id == id {
        from
    } else {
        row_index(rows, id, from + 1)
    }
}

/// The row stored under `id`, if there is one.
pub open spec fn lookup(rows: Seq<DocumentView>, id: Seq<char>) -> Option<DocumentView> {
    let at = row_index(rows, id, 0);
    if at < rows.len() {
        Some(rows[at])
    } else {
        None
    }
}

/// The rows but for the one stored under `id`.
pub open spec fn without_id(rows: Seq<DocumentView>, id: Seq<char>) -> Seq<DocumentView> {
    let at = row_index(rows, id, 0);
    if at < rows.len() {
        rows.remove(at)
    } else {
        rows
    }
}

/// Where a row updated at `now` goes among rows that are ordered from the
/// most recently updated on: before the first row, at or after `from`, that
/// was not updated later than `now`.
pub open spec fn insertion_point(rows: Seq<DocumentView>, now: i64, from: int) -> int
    decreases rows.len() - from,
{
    if from < 0 || from >= rows.len() {
        rows.len() as int
    } else if rows[from].updated_at <= now {
        from
    } else {
        insertion_point(rows, now, from + 1)
    }
}

/// The row that a write of `data` and `metadata` under `id` at the time
/// `now` leaves: a first write sets both times to `now`, a later one keeps
/// the time of creation.
pub open spec fn written_row(
    rows: Seq<DocumentView>,
    id: Seq<char>,
    data: Seq<u8>,
    metadata: Seq<char>,
    now: i64,
) -> DocumentView {
    DocumentView {
        id,
        data,
        metadata,
        created_at: match lookup(rows, id) {
            Some(row) => row.created_at,
            None => now,
        },
        updated_at: now,
    }
}

/// The table after a write: the row that was stored under the id is taken
/// out, and the written row is put in by its time of update.
pub open spec fn upserted(
    rows: Seq<DocumentView>,
    id: Seq<char>,
    data: Seq<u8>,
    metadata: Seq<char>,
    now: i64,
) -> Seq<DocumentView> {
    let rest = without_id(rows, id);
    rest.insert(insertion_point(rest, now, 0), written_row(rows, id, data, metadata, now))
}

/// No two rows have the same id.
pub open spec fn ids_unique(rows: Seq<DocumentView>) -> bool {
    forall|i: int, j: int| 0 <= i < j < rows.len() ==> (#[trigger] rows[i]).id != (#[trigger] rows[j]).id
}

/// The rows stand from the most recently updated on.
pub open spec fn newest_first(rows: Seq<DocumentView>) -> bool {
    forall|i: int, j: int|
        0 <= i < j < rows.len() ==> (#[trigger] rows[i]).updated_at >= (#[trigger] rows[j]).updated_at
}

/// The limit in force: the default where none is given, and no limit at all
/// where a negative one is given.
pub open spec fn effective_limit(limit: Option<i64>) -> Option<nat> {
    let given = match limit {
        Some(l) => l,
        None => DEFAULT_LIMIT,
    };
    if given < 0 {
        None
    } else {
        Some(given as nat)
    }
}

/// The offset in force: 0 where none or a negative one is given.
pub open spec fn effective_offset(offset: Option<i64>) -> nat {
    match offset {
        Some(o) if o > 0 => o as nat,
        _ => 0,
    }
}

/// The first `limit` items of `items`; all of them without a limit.
pub open spec fn first_items<T>(items: Seq<T>, limit: Option<nat>) -> Seq<T> {
    match limit {
        Some(l) if l < items.len() => items.subrange(0, l as int),
        _ => items,
    }
}

/// The items of `items` from the `offset`-th on.
pub open spec fn skip_items<T>(items: Seq<T>, offset: nat) -> Seq<T> {
    if offset < items.len() {
        items.subrange(offset as int, items.len() as int)
    } else {
        Seq::empty()
    }
}

/// `needle` occurs in `hay` as a run of bytes.
pub open spec fn contains_bytes(hay: Seq<u8>, needle: Seq<u8>) -> bool {
    exists|at: int| occurs_at(hay, needle, at)
}

/// `needle` occurs in `hay` at the index `at`.
pub open spec fn occurs_at(hay: Seq<u8>, needle: Seq<u8>, at: int) -> bool {
    0 <= at && at + needle.len() <= hay.len() && hay.subrange(at, at + needle.len()) == needle
}

/// The query occurs in the row's id or in its metadata, case and all.
pub open spec fn row_matches(row: DocumentView, query: Seq<char>) -> bool {
    contains_bytes(encode_utf8(row.id), encode_utf8(query)) || contains_bytes(
        encode_utf8(row.metadata),
        encode_utf8(query),
    )
}

fn bytes_occur_at(hay: &[u8], needle: &[u8], at: usize) -> (r: bool)
    requires
        at + needle@.len() <= hay@.len(),
    ensures
        r == occurs_at(hay@, needle@, at as int),
{
    let n = hay.len();
    let mut k: usize = 0;
    while k < needle.len()
        invariant
            k <= needle@.len(),
            n == hay@.len(),
            at + needle@.len() <= hay@.len(),
            forall|j: int| 0 <= j < k ==> hay@[at + j] == needle@[j],
        decreases needle@.len() - k,
    {
        if hay[at + k] != needle[k] {
            assert(hay@.subrange(at as int, at + needle@.len())[k as int] != needle@[k as int]);
            return false;
        }
        k = k + 1;
    }
    assert(hay@.subrange(at as int, at + needle@.len()) =~= needle@);
    true
}

fn has_bytes(hay: &[u8], needle: &[u8]) -> (r: bool)
    ensures
        r == contains_bytes(hay@, needle@),
{
    if needle.len() > hay.len() {
        return false;
    }
    if needle.len() == 0 {
        assert(hay@.subrange(0, 0) =~= needle@);
        assert(occurs_at(hay@, needle@, 0));
        return true;
    }
    let n = hay.len();
    let last = hay.len() - needle.len();
    let mut at: usize = 0;
    while at <= last
        invariant
            n == hay@.len(),
            needle@.len() > 0,
            last == hay@.len() - needle@.len(),
            at <= last + 1,
            forall|j: int| 0 <= j < at ==> !occurs_at(hay@, needle@, j),
        decreases last + 1 - at,
    {
        if bytes_occur_at(hay, needle, at) {
            return true;
        }
        at = at + 1;
    }
    false
}

fn document_matches(document: &StoredDocument, query: &str) -> (r: bool)
    ensures
        r == row_matches(document@, query@),
{
    let needle = query.as_bytes();
    has_bytes(document.id.as_str().as_bytes(), needle) || has_bytes(
        document.metadata.as_str().as_bytes(),
        needle,
    )
}

/// `row_index` names the first row with the id, and no row before it has it.
pub proof fn lemma_row_index(rows: Seq<DocumentView>, id: Seq<char>, from: int)
    requires
        0 <= from <= rows.len(),
    ensures
        from <= row_index(rows, id, from) <= rows.len(),
        forall|j: int| from <= j < row_index(rows, id, from) ==> (#[trigger] rows[j]).id != id,
        row_index(rows, id, from) < rows.len() ==> rows[row_index(rows, id, from)].id == id,
    decreases rows.len() - from,
{
    if from < rows.len() && rows[from].id != id {
        lemma_row_index(rows, id, from + 1);
    }
}

/// `insertion_point` names the first row that was not updated after `now`.
pub proof fn lemma_insertion_point(rows: Seq<DocumentView>, now: i64, from: int)
    requires
        0 <= from <= rows.len(),
    ensures
        from <= insertion_point(rows, now, from) <= rows.len(),
        forall|j: int|
            from <= j < insertion_point(rows, now, from) ==> (#[trigger] rows[j]).updated_at > now,
        insertion_point(rows, now, from) < rows.len() ==> rows[insertion_point(
            rows,
            now,
            from,
        )].updated_at <= now,
    decreases rows.len() - from,
{
    if from < rows.len() && rows[from].updated_at > now {
        lemma_insertion_point(rows, now, from + 1);
    }
}

/// Taking the row of an id out keeps the table in order and leaves no row
/// with that id.
pub proof fn lemma_without_id(rows: Seq<DocumentView>, id: Seq<char>)
    requires
        ids_unique(rows),
        newest_first(rows),
    ensures
        ids_unique(without_id(rows, id)),
        newest_first(without_id(rows, id)),
        forall|j: int| 0 <= j < without_id(rows, id).len() ==> (#[trigger] without_id(rows, id)[j]).id != id,
        lookup(without_id(rows, id), id) is None,
        forall|other: Seq<char>| other != id ==> lookup(without_id(rows, id), other) == lookup(rows, other),
{
    lemma_row_index(rows, id, 0);
    let at = row_index(rows, id, 0);
    let rest = without_id(rows, id);
    if at < rows.len() {
        assert forall|i: int, j: int| 0 <= i < j < rest.len() implies (#[trigger] rest[i]).id != (
        #[trigger] rest[j]).id && rest[i].updated_at >= rest[j].updated_at by {
            let i0 = if i < at { i } else { i + 1 };
            let j0 = if j < at { j } else { j + 1 };
            assert(rest[i] == rows[i0]);
            assert(rest[j] == rows[j0]);
        }
        assert forall|j: int| 0 <= j < rest.len() implies (#[trigger] rest[j]).id != id by {
            let j0 = if j < at { j } else { j + 1 };
            assert(rest[j] == rows[j0]);
            if j0 > at {
                assert(rows[at].id != rows[j0].id);
            }
        }
    }
    lemma_row_index(rest, id, 0);
    assert forall|other: Seq<char>| other != id implies lookup(rest, other) == lookup(
        rows,
        other,
    ) by {
        lemma_row_index(rows, other, 0);
        lemma_row_index(rest, other, 0);
        let a = row_index(rows, other, 0);
        let b = row_index(rest, other, 0);
        if at < rows.len() {
            if a < rows.len() {
                let a1 = if a < at { a } else { a - 1 };
                assert(rest[a1] == rows[a]);
                if b < a1 {
                    let b0 = if b < at { b } else { b + 1 };
                    assert(rest[b] == rows[b0]);
                }
                if b > a1 {
                    assert(rest[a1].id != other);
                }
            } else {
                if b < rest.len() {
                    let b0 = if b < at { b } else { b + 1 };
                    assert(rest[b] == rows[b0]);
                }
            }
            if b < rest.len() {
                let b0 = if b < at { b } else { b + 1 };
                assert(rest[b] == rows[b0]);
                if a < b0 {
                } else if a > b0 {
                    assert(rows[b0].id != other);
                }
            }
        }
    }
}

/// Putting a row with a new id in at its insertion point keeps the table in
/// order, and the row is found under its id.
pub proof fn lemma_insert_row(rows: Seq<DocumentView>, row: DocumentView)
    requires
        ids_unique(rows),
        newest_first(rows),
        forall|j: int| 0 <= j < rows.len() ==> (#[trigger] rows[j]).id != row.id,
    ensures
        ids_unique(rows.insert(insertion_point(rows, row.updated_at, 0), row)),
        newest_first(rows.insert(insertion_point(rows, row.updated_at, 0), row)),
        lookup(rows.insert(insertion_point(rows, row.updated_at, 0), row), row.id) == Some(row),
        forall|other: Seq<char>|
            other != row.id ==> lookup(
                rows.insert(insertion_point(rows, row.updated_at, 0), row),
                other,
            ) == lookup(rows, other),
{
    lemma_insertion_point(rows, row.updated_at, 0);
    let at = insertion_point(rows, row.updated_at, 0);
    let grown = rows.insert(at, row);
    assert forall|i: int, j: int| 0 <= i < j < grown.len() implies (#[trigger] grown[i]).id != (
    #[trigger] grown[j]).id && grown[i].updated_at >= grown[j].updated_at by {
        let i0 = if i < at { i } else { i - 1 };
        let j0 = if j < at { j } else { j - 1 };
        if i != at && j != at {
            assert(grown[i] == rows[i0]);
            assert(grown[j] == rows[j0]);
        } else if i == at {
            assert(grown[j] == rows[j0]);
            if j0 > at {
                assert(rows[at].updated_at >= rows[j0].updated_at);
            }
        } else {
            assert(grown[i] == rows[i0]);
        }
    }
    lemma_row_index(grown, row.id, 0);
    let found = row_index(grown, row.id, 0);
    assert(grown[at] == row);
    if found != at {
        if found < at {
            assert(grown[found] == rows[found]);
        } else {
            assert(grown[at].id == row.id);
        }
    }
    assert forall|other: Seq<char>| other != row.id implies lookup(grown, other) == lookup(
        rows,
        other,
    ) by {
        lemma_row_index(rows, other, 0);
        lemma_row_index(grown, other, 0);
        let a = row_index(rows, other, 0);
        let b = row_index(grown, other, 0);
        if a < rows.len() {
            let a1 = if a < at { a } else { a + 1 };
            assert(grown[a1] == rows[a]);
            if b < a1 && b != at {
                let b0 = if b < at { b } else { b - 1 };
                assert(grown[b] == rows[b0]);
            }
            if b > a1 {
                assert(grown[a1].id != other);
            }
        } else if b < grown.len() && b != at {
            let b0 = if b < at { b } else { b - 1 };
            assert(grown[b] == rows[b0]);
        }
    }
}

/// Round trip: after a write the id reads back with the bytes and metadata
/// that were written and with `now` as its time of update; the time of
/// creation is `now` for a new id and stays for one that was there. Every
/// other id reads as before.
pub proof fn lemma_store_then_get(
    rows: Seq<DocumentView>,
    id: Seq<char>,
    data: Seq<u8>,
    metadata: Seq<char>,
    now: i64,
)
    requires
        ids_unique(rows),
        newest_first(rows),
    ensures
        ids_unique(upserted(rows, id, data, metadata, now)),
        newest_first(upserted(rows, id, data, metadata, now)),
        lookup(upserted(rows, id, data, metadata, now), id) == Some(
            written_row(rows, id, data, metadata, now),
        ),
        written_row(rows, id, data, metadata, now).data == data,
        written_row(rows, id, data, metadata, now).metadata == metadata,
        written_row(rows, id, data, metadata, now).updated_at == now,
        lookup(rows, id) matches Some(before) ==> written_row(
            rows,
            id,
            data,
            metadata,
            now,
        ).created_at == before.created_at,
        lookup(rows, id) is None ==> written_row(rows, id, data, metadata, now).created_at == now,
        forall|other: Seq<char>|
            other != id ==> lookup(upserted(rows, id, data, metadata, now), other) == lookup(
                rows,
                other,
            ),
{
    lemma_without_id(rows, id);
    lemma_insert_row(without_id(rows, id), written_row(rows, id, data, metadata, now));
}

/// After a document was deleted its id is not found; every other id reads
/// as before.
pub proof fn lemma_delete_then_get(rows: Seq<DocumentView>, id: Seq<char>)
    requires
        ids_unique(rows),
        newest_first(rows),
    ensures
        lookup(without_id(rows, id), id) is None,
        forall|other: Seq<char>| other != id ==> lookup(without_id(rows, id), other) == lookup(rows, other),
{
    lemma_without_id(rows, id);
}

/// The table of documents, kept from the most recently updated on.
pub struct Storage {
    documents: Vec<StoredDocument>,
}

impl Storage {
    /// The rows of the table, the most recently updated first.
    pub closed spec fn spec_rows(&self) -> Seq<DocumentView> {
        views_of(self.documents@)
    }

    /// No id is stored twice, and the rows stand from the most recently
    /// updated on.
    pub closed spec fn wf(&self) -> bool {
        ids_unique(self.spec_rows()) && newest_first(self.spec_rows())
    }

    /// What a well-formed table guarantees to its readers.
    pub proof fn lemma_wf(&self)
        requires
            self.wf(),
        ensures
            ids_unique(self.spec_rows()),
            newest_first(self.spec_rows()),
    {
    }

    /// An empty table.
    pub fn new() -> (r: Self)
        ensures
            r.wf(),
            r.spec_rows().len() == 0,
    {
        Storage { documents: Vec::new() }
    }

    fn find(&self, id: &String) -> (at: usize)
        ensures
            at == row_index(self.spec_rows(), id@, 0),
            at <= self.documents@.len(),
    {
        let ghost rows = self.spec_rows();
        let mut at: usize = 0;
        while at < self.documents.len() && !(self.documents[at].id == *id)
            invariant
                at <= self.documents@.len(),
                rows == self.spec_rows(),
                row_index(rows, id@, 0) == row_index(rows, id@, at as int),
            decreases self.documents@.len() - at,
        {
            assert(rows[at as int].id == self.documents@[at as int].id@);
            at = at + 1;
        }
        proof {
            if at < rows.len() {
                assert(rows[at as int].id == self.documents@[at as int].id@);
            }
        }
        at
    }

    fn place(&self, now: i64) -> (at: usize)
        ensures
            at == insertion_point(self.spec_rows(), now, 0),
            at <= self.documents@.len(),
    {
        let ghost rows = self.spec_rows();
        let mut at: usize = 0;
        while at < self.documents.len() && self.documents[at].updated_at > now
            invariant
                at <= self.documents@.len(),
                rows == self.spec_rows(),
                insertion_point(rows, now, 0) == insertion_point(rows, now, at as int),
            decreases self.documents@.len() - at,
        {
            assert(rows[at as int].updated_at == self.documents@[at as int].updated_at);
            at = at + 1;
        }
        proof {
            if at < rows.len() {
                assert(rows[at as int].updated_at == self.documents@[at as int].updated_at);
            }
        }
        at
    }

    /// Puts a row into the table as it is, in place of the row that was
    /// stored under its id. This is how a table is rebuilt from rows that
    /// were kept elsewhere.
    pub fn restore_document(&mut self, document: StoredDocument)
        requires
            old(self).wf(),
        ensures
            final(self).wf(),
            final(self).spec_rows() == without_id(old(self).spec_rows(), document.id@).insert(
                insertion_point(
                    without_id(old(self).spec_rows(), document.id@),
                    document.updated_at,
                    0,
                ),
                document@,
            ),
            lookup(final(self).spec_rows(), document.id@) == Some(document@),
    {
        let ghost rows = self.spec_rows();
        let at = self.find(&document.id);
        if at < self.documents.len() {
            self.documents.remove(at);
            assert(self.spec_rows() =~= rows.remove(at as int));
        }
        let ghost rest = self.spec_rows();
        let to = self.place(document.updated_at);
        let ghost row = document@;
        proof {
            lemma_without_id(rows, document.id@);
            lemma_insert_row(rest, row);
        }
        self.documents.insert(to, document);
        assert(self.spec_rows() =~= rest.insert(to as int, row));
    }

    /// Writes `data` and `metadata` under `id` at the time `now`: a new id
    /// gets a row with both times set to `now`; for an id that is there the
    /// data, the metadata and the time of update are replaced, and the time
    /// of creation stays.
    pub fn store_document(&mut self, id: &str, data: &[u8], metadata: &str, now: i64)
        requires
            old(self).wf(),
        ensures
            final(self).wf(),
            final(self).spec_rows() == upserted(old(self).spec_rows(), id@, data@, metadata@, now),
            lookup(final(self).spec_rows(), id@) == Some(
                written_row(old(self).spec_rows(), id@, data@, metadata@, now),
            ),
    {
        let ghost rows = self.spec_rows();
        let owned = id.to_owned();
        let at = self.find(&owned);
        let created_at = if at < self.documents.len() {
            self.documents[at].created_at
        } else {
            now
        };
        proof {
            lemma_row_index(rows, id@, 0);
            lemma_store_then_get(rows, id@, data@, metadata@, now);
        }
        let document = StoredDocument {
            id: owned,
            data: slice_to_vec(data),
            metadata: metadata.to_owned(),
            created_at,
            updated_at: now,
        };
        assert(document@ == written_row(rows, id@, data@, metadata@, now));
        self.restore_document(document);
    }

    /// The document stored under `id`; `None` where there is none.
    pub fn get_document(&self, id: &str) -> (r: Option<StoredDocument>)
        ensures
            match r {
                Some(document) => lookup(self.spec_rows(), id@) == Some(document@),
                None => lookup(self.spec_rows(), id@) is None,
            },
    {
        let owned = id.to_owned();
        let at = self.find(&owned);
        if at < self.documents.len() {
            Some(self.documents[at].clone())
        } else {
            None
        }
    }

    /// Deletes the document stored under `id` and tells whether there was
    /// one.
    pub fn delete_document(&mut self, id: &str) -> (deleted: bool)
        requires
            old(self).wf(),
        ensures
            final(self).wf(),
            deleted == lookup(old(self).spec_rows(), id@) is Some,
            final(self).spec_rows() == without_id(old(self).spec_rows(), id@),
            lookup(final(self).spec_rows(), id@) is None,
    {
        let ghost rows = self.spec_rows();
        let owned = id.to_owned();
        let at = self.find(&owned);
        proof {
            lemma_without_id(rows, id@);
        }
        if at < self.documents.len() {
            self.documents.remove(at);
            assert(self.spec_rows() =~= rows.remove(at as int));
            true
        } else {
            false
        }
    }

    /// How many documents are stored.
    pub fn document_count(&self) -> (n: usize)
        ensures
            n == self.spec_rows().len(),
    {
        self.documents.len()
    }

    /// One page of the table, the most recently updated documents first:
    /// `offset` documents are passed over and up to `limit` are returned.
    /// Without a limit 100 are returned at most; a negative limit is no
    /// limit, and a negative offset is none.
    pub fn list_documents(&self, limit: Option<i64>, offset: Option<i64>) -> (r: Vec<
        StoredDocument,
    >)
        ensures
            views_of(r@) == first_items(
                skip_items(self.spec_rows(), effective_offset(offset)),
                effective_limit(limit),
            ),
    {
        let len = self.documents.len();
        let start: usize = match offset {
            Some(o) => if o <= 0 {
                0
            } else if o as u64 >= len as u64 {
                len
            } else {
                o as usize
            },
            None => 0,
        };
        let given: i64 = match limit {
            Some(l) => l,
            None => DEFAULT_LIMIT,
        };
        let end: usize = if given < 0 || given as u64 >= (len - start) as u64 {
            len
        } else {
            start + given as usize
        };
        let mut out: Vec<StoredDocument> = Vec::new();
        let mut at: usize = start;
        while at < end
            invariant
                start <= at <= end <= self.documents@.len(),
                out@.len() == at - start,
                forall|j: int| 0 <= j < out@.len() ==> (#[trigger] out@[j])@ == self.documents@[start + j]@,
            decreases end - at,
        {
            out.push(self.documents[at].clone());
            at = at + 1;
        }
        assert(views_of(out@) =~= first_items(
            skip_items(self.spec_rows(), effective_offset(offset)),
            effective_limit(limit),
        ));
        out
    }

    /// The documents whose id or metadata holds `query`, the most recently
    /// updated first, up to `limit` of them. Without a limit 100 are
    /// returned at most; a negative limit is no limit.
    pub fn search_documents(&self, query: &str, limit: Option<i64>) -> (r: Vec<StoredDocument>)
        ensures
            views_of(r@) == first_items(
                self.spec_rows().filter(|row: DocumentView| row_matches(row, query@)),
                effective_limit(limit),
            ),
    {
        let given: i64 = match limit {
            Some(l) => l,
            None => DEFAULT_LIMIT,
        };
        let ghost wanted = |row: DocumentView| row_matches(row, query@);
        let ghost rows = self.spec_rows();
        let mut out: Vec<StoredDocument> = Vec::new();
        let mut at: usize = 0;
        assert(rows.take(0).filter(wanted) =~= Seq::<DocumentView>::empty()) by {
            reveal(Seq::filter);
        }
        assert(views_of(out@) =~= first_items(rows.take(0).filter(wanted), effective_limit(limit)));
        while at < self.documents.len()
            invariant
                at <= self.documents@.len(),
                rows == self.spec_rows(),
                wanted == |row: DocumentView| row_matches(row, query@),
                given == match limit {
                    Some(l) => l,
                    None => DEFAULT_LIMIT,
                },
                views_of(out@) == first_items(
                    rows.take(at as int).filter(wanted),
                    effective_limit(limit),
                ),
            decreases self.documents@.len() - at,
        {
            let ghost seen = rows.take(at as int);
            let ghost kept = seen.filter(wanted);
            let ghost row = rows[at as int];
            let ghost views_before = views_of(out@);
            proof {
                assert(rows.take(at + 1) =~= seen.push(row));
                assert(seen.push(row).drop_last() =~= seen);
                assert(seen.push(row).last() == row);
                assert(seen.push(row).filter(wanted) == if wanted(row) {
                    kept.push(row)
                } else {
                    kept
                }) by {
                    reveal(Seq::filter);
                }
                assert(row == self.documents@[at as int]@);
            }
            if document_matches(&self.documents[at], query) {
                assert(wanted(row));
                if given < 0 || (out.len() as u64) < given as u64 {
                    out.push(self.documents[at].clone());
                    assert(views_of(out@) =~= views_before.push(row));
                    assert(views_before == kept);
                    assert(views_of(out@) =~= first_items(kept.push(row), effective_limit(limit)));
                } else {
                    assert(first_items(kept.push(row), effective_limit(limit)) =~= first_items(
                        kept,
                        effective_limit(limit),
                    ));
                }
            }
            at = at + 1;
        }
        assert(rows.take(at as int) =~= rows);
        out
    }
}

} // verus!
