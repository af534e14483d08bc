//! The store itself: comics, chunks and metadata held behind one handle,
//! with every operation specified against the mathematical [`StoreModel`].
//!
//! The model is the contract language: a store is a sequence of comic
//! records, a sequence of chunk rows (each carrying its storage-assigned
//! identifier), a key/value metadata map, and the next identifier to hand
//! out. Chunk embeddings rest in their packed little-endian storage form and
//! appear in the model as the word sequences they decode to.

use vstd::multiset::Multiset;
use vstd::prelude::*;

use crate::EMBEDDING_DIM;
use crate::codec::{decode_spec, encode_spec, lemma_decode_encode, validate_embedding,
    encode_embedding, decode_embedding_blob};
use crate::error::DatabaseError;
use crate::models::{Comics, ComicsView, Chunks, ChunksView, Metadata, SectionType,
    ChunkSearchResult, SearchResultView};

verus! {

/// A chunk row at rest: the chunk's fields plus its storage-assigned
/// identifier and its embedding as the decoded word sequence.
#[verifier::ext_equal]
pub struct ChunkRow {
    pub id: u64,
    pub comic_number: u64,
    pub chunk_text: Seq<char>,
    pub chunk_index: u64,
    pub section_type: Option<SectionType>,
    pub embedding: Seq<u32>,
}

/// The mathematical model of a store.
#[verifier::ext_equal]
pub struct StoreModel {
    /// Comic records, in insertion order, with pairwise distinct numbers.
    pub comics: Seq<ComicsView>,
    /// Chunk rows, in insertion order.
    pub chunks: Seq<ChunkRow>,
    /// The metadata table: unique keys to values.
    pub meta: Map<Seq<char>, Seq<char>>,
    /// The identifier the next inserted chunk will receive.
    pub next_chunk_id: u64,
}

/// The predicate selecting the chunk rows of comic `n`.
pub open spec fn same_comic(n: u64) -> spec_fn(ChunkRow) -> bool {
    |c: ChunkRow| c.comic_number == n
}

/// The predicate selecting the chunk rows of every comic but `n`.
pub open spec fn other_comic(n: u64) -> spec_fn(ChunkRow) -> bool {
    |c: ChunkRow| c.comic_number != n
}

/// The predicate selecting every comic record but the one numbered `n`.
pub open spec fn comic_not_numbered(n: u64) -> spec_fn(ComicsView) -> bool {
    |c: ComicsView| c.comic_number != n
}

/// The row a chunk becomes when stored under the identifier `id`.
pub open spec fn row_of(c: ChunksView, id: u64) -> ChunkRow {
    ChunkRow {
        id,
        comic_number: c.comic_number,
        chunk_text: c.chunk_text,
        chunk_index: c.chunk_index,
        section_type: c.section_type,
        embedding: c.embedding,
    }
}

/// The chunk value a stored row reads back as.
pub open spec fn chunk_of_row(r: ChunkRow) -> ChunksView {
    ChunksView {
        id: Some(r.id),
        comic_number: r.comic_number,
        chunk_text: r.chunk_text,
        chunk_index: r.chunk_index,
        section_type: r.section_type,
        embedding: r.embedding,
    }
}

/// The mapping from stored rows to the chunk values they read back as.
pub open spec fn row_reader() -> spec_fn(ChunkRow) -> ChunksView {
    |r: ChunkRow| chunk_of_row(r)
}

/// The rows a batch of chunks becomes when stored under consecutive
/// identifiers starting at `start`.
pub open spec fn batch_rows(s: Seq<ChunksView>, start: u64) -> Seq<ChunkRow> {
    Seq::new(s.len(), |i: int| row_of(s[i], (start + i) as u64))
}

/// The views of a sequence of chunk values.
pub open spec fn chunks_views(s: Seq<Chunks>) -> Seq<ChunksView> {
    s.map_values(|c: Chunks| c@)
}

/// The views of a sequence of comic records.
pub open spec fn comics_views(s: Seq<Comics>) -> Seq<ComicsView> {
    s.map_values(|c: Comics| c@)
}

/// The views of a sequence of search results.
pub open spec fn results_views(s: Seq<ChunkSearchResult>) -> Seq<SearchResultView> {
    s.map_values(|c: ChunkSearchResult| c@)
}

impl StoreModel {
    /// Whether a comic with number `n` exists.
    pub open spec fn has_comic(self, n: u64) -> bool {
        exists|i: int| 0 <= i < self.comics.len() && self.comics[i].comic_number == n
    }

    /// The comic record numbered `n` (meaningful only when it exists).
    pub open spec fn comic_at(self, n: u64) -> ComicsView {
        self.comics[choose|i: int| 0 <= i < self.comics.len() && self.comics[i].comic_number == n]
    }

    /// The chunk rows of comic `n`, in insertion order.
    pub open spec fn chunks_of(self, n: u64) -> Seq<ChunkRow> {
        self.chunks.filter(same_comic(n))
    }

    /// Whether the initialization marker is present and affirmative.
    pub open spec fn initialized(self) -> bool {
        self.meta.contains_key("INITIALIZED"@) && self.meta["INITIALIZED"@] == "true"@
    }

    /// The internal consistency every store maintains: comic numbers are
    /// unique, every chunk references an existing comic, chunk identifiers
    /// are unique and below the next one to hand out, and every stored
    /// embedding has the configured dimension.
    pub open spec fn inv(self) -> bool {
        &&& forall|i: int, j: int|
            0 <= i < j < self.comics.len() ==> #[trigger] self.comics[i].comic_number
                != #[trigger] self.comics[j].comic_number
        &&& forall|i: int|
            0 <= i < self.chunks.len() ==> self.has_comic(#[trigger] self.chunks[i].comic_number)
        &&& forall|i: int|
            0 <= i < self.chunks.len() ==> (#[trigger] self.chunks[i].id) < self.next_chunk_id
        &&& forall|i: int, j: int|
            0 <= i < j < self.chunks.len() ==> #[trigger] self.chunks[i].id
                != #[trigger] self.chunks[j].id
        &&& forall|i: int|
            0 <= i < self.chunks.len() ==> (#[trigger] self.chunks[i].embedding).len()
                == EMBEDDING_DIM
        &&& self.next_chunk_id >= 1
    }

    /// The store after a chunk is inserted: the row is appended under the
    /// next identifier, which then advances.
    pub open spec fn with_chunk(self, c: ChunksView) -> StoreModel {
        StoreModel {
            chunks: self.chunks.push(row_of(c, self.next_chunk_id)),
            next_chunk_id: (self.next_chunk_id + 1) as u64,
            ..self
        }
    }

    /// The store after a comic is inserted.
    pub open spec fn with_comic(self, c: ComicsView) -> StoreModel {
        StoreModel { comics: self.comics.push(c), ..self }
    }

    /// The store after a whole batch of chunks is inserted: the rows are
    /// appended in order, under consecutive identifiers starting at the next
    /// one to hand out.
    pub open spec fn with_chunks(self, s: Seq<ChunksView>) -> StoreModel {
        StoreModel {
            chunks: self.chunks + batch_rows(s, self.next_chunk_id),
            next_chunk_id: (self.next_chunk_id + s.len()) as u64,
            ..self
        }
    }

    /// The store after the revision bookkeeping of comic `n` is updated:
    /// that record's `last_revision_id`, `last_revision_timestamp` and
    /// `updated_at` are replaced; every other record and everything else in
    /// the store is untouched.
    pub open spec fn with_comic_updated(self, n: u64, lri: u64, lrt: Seq<char>, ua: Seq<char>) -> StoreModel {
        StoreModel {
            comics: Seq::new(
                self.comics.len(),
                |i: int|
                    if self.comics[i].comic_number == n {
                        ComicsView {
                            last_revision_id: lri,
                            last_revision_timestamp: lrt,
                            updated_at: ua,
                            ..self.comics[i]
                        }
                    } else {
                        self.comics[i]
                    },
            ),
            ..self
        }
    }

    /// The store after comic `n` is deleted: its record and, by cascade,
    /// all its chunk rows are gone; everything else is untouched.
    pub open spec fn without_comic(self, n: u64) -> StoreModel {
        StoreModel {
            comics: self.comics.filter(comic_not_numbered(n)),
            chunks: self.chunks.filter(other_comic(n)),
            ..self
        }
    }

    /// An index of the comic record numbered `n` is unique, so any found
    /// index yields `comic_at`.
    pub proof fn lemma_comic_at(self, i: int)
        requires
            self.inv(),
            0 <= i < self.comics.len(),
        ensures
            self.has_comic(self.comics[i].comic_number),
            self.comic_at(self.comics[i].comic_number) == self.comics[i],
    {
        let n = self.comics[i].comic_number;
        assert(self.has_comic(n));
        let w = choose|w: int| 0 <= w < self.comics.len() && self.comics[w].comic_number == n;
        if w != i {
            if w < i {
                assert(self.comics[w].comic_number != self.comics[i].comic_number);
            } else {
                assert(self.comics[i].comic_number != self.comics[w].comic_number);
            }
        }
    }
}

/// Whether `out` is a correct answer to retrieving the chunks of comic `n`
/// from the store `m`: exactly the stored rows of that comic, read back as
/// chunk values, ordered by `chunk_index` ascending. Rows sharing an index
/// may come back in either order, as a storage engine's sort may break ties
/// at will.
pub open spec fn is_chunk_listing(m: StoreModel, n: u64, out: Seq<ChunksView>) -> bool {
    &&& out.to_multiset() == m.chunks_of(n).map_values(row_reader()).to_multiset()
    &&& forall|p: int, q: int|
        0 <= p < q < out.len() ==> (#[trigger] out[p]).chunk_index
            <= (#[trigger] out[q]).chunk_index
}

/// The search hit a stored row yields in the store `m`: the row's own
/// fields, its section type in persisted string form, joined with the
/// display fields of its owning comic.
pub open spec fn result_view(m: StoreModel, row: ChunkRow) -> SearchResultView {
    SearchResultView {
        chunk_id: row.id,
        comic_number: row.comic_number,
        chunk_text: row.chunk_text,
        section_type: match row.section_type {
            Some(s) => Some(s.spec_name()),
            None => None,
        },
        comic_title: m.comic_at(row.comic_number).title,
        xkcd_url: m.comic_at(row.comic_number).xkcd_url,
        hover_text: m.comic_at(row.comic_number).hover_text,
    }
}

/// The mapping from stored rows to search hits in the store `m`.
pub open spec fn result_mapper(m: StoreModel) -> spec_fn(ChunkRow) -> SearchResultView {
    |row: ChunkRow| result_view(m, row)
}

/// The predicate selecting chunk rows whose comic number occurs in `ns`.
pub open spec fn chunk_comic_in(ns: Seq<u64>) -> spec_fn(ChunkRow) -> bool {
    |c: ChunkRow| ns.contains(c.comic_number)
}

/// The chunk rows of `m` at the given positions, in that order.
pub open spec fn positions_rows(m: StoreModel, at: Seq<usize>) -> Seq<ChunkRow> {
    Seq::new(at.len(), |j: int| m.chunks[at[j] as int])
}

/// The predicate selecting comic records whose number occurs in `ns`.
pub open spec fn comic_in(ns: Seq<u64>) -> spec_fn(ComicsView) -> bool {
    |c: ComicsView| ns.contains(c.comic_number)
}

/// Whether `out` is the correct answer to a batch retrieval of the numbers
/// `req` from the store `m`: exactly the comics that exist among the
/// requested numbers, each once, in strictly ascending number order —
/// whatever the order and multiplicity of the request.
pub open spec fn is_batch_listing(m: StoreModel, req: Seq<u64>, out: Seq<ComicsView>) -> bool {
    &&& forall|t: int|
        0 <= t < out.len() ==> {
            &&& req.contains((#[trigger] out[t]).comic_number)
            &&& m.has_comic(out[t].comic_number)
            &&& out[t] == m.comic_at(out[t].comic_number)
        }
    &&& forall|n: u64|
        #![auto]
        req.contains(n) && m.has_comic(n) ==> exists|t: int|
            0 <= t < out.len() && out[t].comic_number == n
    &&& forall|p: int, q: int|
        0 <= p < q < out.len() ==> (#[trigger] out[p]).comic_number
            < (#[trigger] out[q]).comic_number
}

/// Strings order lexicographically by code point: `a` sorts before `b` when
/// at the first differing position `a` holds the smaller code point, or
/// when `a` is a proper prefix of `b`. This is how the storage engine
/// compares its text columns, given one common encoding.
pub open spec fn lex_lt_at(a: Seq<char>, b: Seq<char>, i: int) -> bool {
    &&& 0 <= i < a.len()
    &&& i < b.len()
    &&& forall|j: int| 0 <= j < i ==> a[j] == b[j]
    &&& (a[i] as u32) < (b[i] as u32)
}

/// See [`lex_lt_at`]: the lexicographic strict order on strings.
pub open spec fn lex_lt(a: Seq<char>, b: Seq<char>) -> bool {
    ||| exists|i: int| lex_lt_at(a, b, i)
    ||| (a.len() < b.len() && a == b.take(a.len() as int))
}

/// The predicate selecting comic records last updated strictly before `t`.
pub open spec fn updated_before(t: Seq<char>) -> spec_fn(ComicsView) -> bool {
    |c: ComicsView| lex_lt(c.updated_at, t)
}

/// Reading comic views commutes with appending one.
proof fn lemma_comics_views_push(s: Seq<Comics>, c: Comics)
    ensures
        comics_views(s.push(c)) =~= comics_views(s).push(c@),
{
}

/// Reading comic views commutes with removing one.
proof fn lemma_comics_views_remove(s: Seq<Comics>, i: int)
    requires
        0 <= i < s.len(),
    ensures
        comics_views(s.remove(i)) =~= comics_views(s).remove(i),
{
}

/// Filtering keeps comic numbers pairwise distinct.
proof fn lemma_filter_keeps_distinct_numbers(s: Seq<ComicsView>, p: spec_fn(ComicsView) -> bool)
    requires
        forall|i: int, j: int|
            0 <= i < j < s.len() ==> #[trigger] s[i].comic_number != #[trigger] s[j].comic_number,
    ensures
        forall|i: int, j: int|
            0 <= i < j < s.filter(p).len() ==> #[trigger] s.filter(p)[i].comic_number
                != #[trigger] s.filter(p)[j].comic_number,
    decreases s.len(),
{
    reveal(Seq::filter);
    if s.len() > 0 {
        let t = s.drop_last();
        let x = s.last();
        assert(forall|i: int| 0 <= i < t.len() ==> t[i] == s[i]);
        lemma_filter_keeps_distinct_numbers(t, p);
        let f = s.filter(p);
        let ft = t.filter(p);
        if p(x) {
            assert(f == ft.push(x));
            assert forall|i: int, j: int| 0 <= i < j < f.len() implies #[trigger] f[i].comic_number
                != #[trigger] f[j].comic_number by {
                if j == f.len() - 1 {
                    // `f[i]` came from `t`; its number differs from the last
                    // record's.
                    assert(f[i] == ft[i]);
                    assert(ft.contains(ft[i]));
                    t.lemma_filter_contains_rev(p, ft[i]);
                    let w = choose|w: int| 0 <= w < t.len() && t[w] == ft[i];
                    assert(s[w].comic_number != s[s.len() - 1].comic_number);
                }
            }
        }
    }
}
proof fn lemma_chunks_views_push(s: Seq<Chunks>, c: Chunks)
    ensures
        chunks_views(s.push(c)) =~= chunks_views(s).push(c@),
{
}

/// Reading chunk values commutes with removing one.
proof fn lemma_chunks_views_remove(s: Seq<Chunks>, i: int)
    requires
        0 <= i < s.len(),
    ensures
        chunks_views(s.remove(i)) =~= chunks_views(s).remove(i),
{
}

/// Reading stored rows back as chunk values commutes with appending one.
proof fn lemma_rows_read_push(s: Seq<ChunkRow>, r: ChunkRow)
    ensures
        s.push(r).map_values(row_reader()) =~= s.map_values(row_reader()).push(chunk_of_row(r)),
{
}

/// One more element of a prefix either joins the filtered prefix or leaves
/// it unchanged, by the predicate's verdict on it.
proof fn lemma_filter_take_succ<A>(s: Seq<A>, i: int, p: spec_fn(A) -> bool)
    requires
        0 <= i < s.len(),
    ensures
        s.take(i + 1).filter(p) == if p(s[i]) {
            s.take(i).filter(p).push(s[i])
        } else {
            s.take(i).filter(p)
        },
{
    assert(s.take(i + 1) =~= s.take(i).push(s[i]));
    s.take(i).lemma_filter_push(s[i], p);
}

/// A sequence filtered by a predicate every element satisfies is itself.
proof fn lemma_filter_all_true<A>(s: Seq<A>, p: spec_fn(A) -> bool)
    requires
        forall|i: int| 0 <= i < s.len() ==> p(#[trigger] s[i]),
    ensures
        s.filter(p) =~= s,
    decreases s.len(),
{
    reveal(Seq::filter);
    if s.len() > 0 {
        assert(forall|i: int| 0 <= i < s.len() - 1 ==> s.drop_last()[i] == s[i]);
        lemma_filter_all_true(s.drop_last(), p);
    }
}

/// Removing the only record with number `n` is the same as filtering every
/// record with another number, as long as numbers are unique.
proof fn lemma_remove_unique_is_filter(s: Seq<ComicsView>, i: int, n: u64)
    requires
        0 <= i < s.len(),
        s[i].comic_number == n,
        forall|p: int, q: int|
            0 <= p < q < s.len() ==> #[trigger] s[p].comic_number != #[trigger] s[q].comic_number,
    ensures
        s.remove(i) =~= s.filter(comic_not_numbered(n)),
{
    broadcast use Seq::filter_distributes_over_add;

    let a = s.take(i);
    let m = seq![s[i]];
    let b = s.skip(i + 1);
    assert(s =~= (a + m) + b);
    assert(forall|j: int| 0 <= j < a.len() ==> comic_not_numbered(n)(#[trigger] a[j]));
    assert forall|j: int| 0 <= j < b.len() implies comic_not_numbered(n)(#[trigger] b[j]) by {
        assert(b[j] == s[i + 1 + j]);
    }
    lemma_filter_all_true(a, comic_not_numbered(n));
    lemma_filter_all_true(b, comic_not_numbered(n));
    assert(m.filter(comic_not_numbered(n)) =~= Seq::<ComicsView>::empty()) by {
        reveal(Seq::filter);
        assert(m.drop_last() =~= Seq::<ComicsView>::empty());
        assert(Seq::<ComicsView>::empty().filter(comic_not_numbered(n))
            =~= Seq::<ComicsView>::empty());
    }
    assert(s.filter(comic_not_numbered(n)) =~= a + b);
    assert(s.remove(i) =~= a + b);
}

/// Whether `x` occurs in a vector of numbers.
fn contains_u64(v: &Vec<u64>, x: u64) -> (r: bool)
    ensures
        r == v@.contains(x),
{
    let n = v.len();
    let mut i: usize = 0;
    while i < n
        invariant
            i <= n,
            n == v@.len(),
            forall|j: int| 0 <= j < i ==> v@[j] != x,
        decreases n - i,
    {
        if v[i] == x {
            return true;
        }
        i = i + 1;
    }
    false
}

/// Compares two strings in the lexicographic code-point order that the
/// storage engine uses for text columns.
pub fn str_lt(a: &str, b: &str) -> (r: bool)
    ensures
        r == lex_lt(a@, b@),
{
    let na = a.unicode_len();
    let nb = b.unicode_len();
    let mut i: usize = 0;
    while i < na && i < nb
        invariant
            i <= na,
            i <= nb,
            na == a@.len(),
            nb == b@.len(),
            forall|j: int| 0 <= j < i ==> a@[j] == b@[j],
        decreases na - i,
    {
        let ca = a.get_char(i);
        let cb = b.get_char(i);
        if (ca as u32) < (cb as u32) {
            proof {
                assert(lex_lt_at(a@, b@, i as int));
            }
            return true;
        }
        if (ca as u32) > (cb as u32) {
            proof {
                assert forall|t: int| !lex_lt_at(a@, b@, t) by {
                    if 0 <= t < i {
                        assert(a@[t] == b@[t]);
                    } else if t == i {
                    } else if i < t < a@.len() && t < b@.len() {
                        assert(!(a@[i as int] == b@[i as int]));
                    }
                }
                assert(!(a@.len() < b@.len() && a@ == b@.take(a@.len() as int))) by {
                    if a@.len() < b@.len() && a@ == b@.take(a@.len() as int) {
                        assert(a@[i as int] == b@.take(a@.len() as int)[i as int]);
                    }
                }
            }
            return false;
        }
        i = i + 1;
    }
    if na < nb {
        proof {
            assert(a@ =~= b@.take(a@.len() as int));
        }
        true
    } else {
        proof {
            assert forall|t: int| !lex_lt_at(a@, b@, t) by {
                if 0 <= t < nb {
                    assert(a@[t] == b@[t]);
                }
            }
        }
        false
    }
}

/// A chunk row in its storage form: text fields as owned strings and the
/// embedding as its packed little-endian blob.
struct StoredChunk {
    id: u64,
    comic_number: u64,
    chunk_text: String,
    chunk_index: u64,
    section_type: Option<SectionType>,
    embedding_blob: Vec<u8>,
}

/// The row a stored chunk denotes.
spec fn stored_view(c: StoredChunk) -> ChunkRow {
    ChunkRow {
        id: c.id,
        comic_number: c.comic_number,
        chunk_text: c.chunk_text@,
        chunk_index: c.chunk_index,
        section_type: c.section_type,
        embedding: decode_spec(c.embedding_blob@),
    }
}

/// The mapping from storage form to denoted row.
spec fn stored_viewer() -> spec_fn(StoredChunk) -> ChunkRow {
    |c: StoredChunk| stored_view(c)
}

/// The rows a sequence of stored chunks denotes.
spec fn stored_views(s: Seq<StoredChunk>) -> Seq<ChunkRow> {
    s.map_values(stored_viewer())
}

/// The predicate selecting stored chunks of comic `n`.
spec fn stored_same(n: u64) -> spec_fn(StoredChunk) -> bool {
    |c: StoredChunk| c.comic_number == n
}

/// The predicate selecting stored chunks of every comic but `n`.
spec fn stored_other(n: u64) -> spec_fn(StoredChunk) -> bool {
    |c: StoredChunk| c.comic_number != n
}

/// Filtering commutes with reading stored chunks as rows, and the kept and
/// dropped parts of a split together cover the sequence.
proof fn lemma_stored_filter_facts(s: Seq<StoredChunk>, n: u64)
    ensures
        stored_views(s.filter(stored_other(n))) =~= stored_views(s).filter(other_comic(n)),
        s.filter(stored_same(n)).len() == stored_views(s).filter(same_comic(n)).len(),
        s.filter(stored_same(n)).len() + s.filter(stored_other(n)).len() == s.len(),
    decreases s.len(),
{
    broadcast use Seq::lemma_filter_push;

    reveal(Seq::filter);
    if s.len() == 0 {
        assert(stored_views(s) =~= Seq::<ChunkRow>::empty());
        assert(stored_views(s.filter(stored_other(n))) =~= Seq::<ChunkRow>::empty());
    } else {
        let t = s.drop_last();
        let x = s.last();
        lemma_stored_filter_facts(t, n);
        assert(s =~= t.push(x));
        assert(stored_views(s) =~= stored_views(t).push(stored_view(x)));
        assert(stored_views(t.filter(stored_other(n)).push(x)) =~= stored_views(
            t.filter(stored_other(n)),
        ).push(stored_view(x)));
    }
}

/// The model invariant survives removing one chunk row.
proof fn lemma_inv_chunks_remove(m: StoreModel, i: int)
    requires
        m.inv(),
        0 <= i < m.chunks.len(),
    ensures
        (StoreModel { chunks: m.chunks.remove(i), ..m }).inv(),
{
    let m2 = StoreModel { chunks: m.chunks.remove(i), ..m };
    assert forall|j: int| 0 <= j < m2.chunks.len() implies #[trigger] m2.chunks[j] == (if j < i {
        m.chunks[j]
    } else {
        m.chunks[j + 1]
    }) by {}
    assert forall|j: int| 0 <= j < m2.chunks.len() implies m2.has_comic(
        #[trigger] m2.chunks[j].comic_number,
    ) by {
        let x = m2.chunks[j].comic_number;
        assert(m.has_comic(x));
        let w = choose|w: int| 0 <= w < m.comics.len() && m.comics[w].comic_number == x;
        assert(m2.comics[w].comic_number == x);
    }
    assert forall|p: int, q: int| 0 <= p < q < m2.chunks.len() implies #[trigger] m2.chunks[p].id
        != #[trigger] m2.chunks[q].id by {
        let p2: int = if p < i { p } else { p + 1 };
        let q2: int = if q < i { q } else { q + 1 };
        assert(m.chunks[p2].id != m.chunks[q2].id);
    }
}

/// The metadata map a metadata table denotes: later entries win, though a
/// well-formed store never holds two entries under one key.
spec fn meta_map(s: Seq<Metadata>) -> Map<Seq<char>, Seq<char>>
    decreases s.len(),
{
    if s.len() == 0 {
        Map::empty()
    } else {
        meta_map(s.drop_last()).insert(s.last().key@, s.last().value@)
    }
}

/// A key is in the denoted map exactly when some entry carries it.
proof fn lemma_meta_map_contains(s: Seq<Metadata>, k: Seq<char>)
    ensures
        meta_map(s).contains_key(k) <==> exists|i: int| 0 <= i < s.len() && s[i].key@ == k,
    decreases s.len(),
{
    if s.len() > 0 {
        lemma_meta_map_contains(s.drop_last(), k);
        if s.last().key@ == k {
            assert(s[s.len() - 1].key@ == k);
        } else if meta_map(s).contains_key(k) {
            let i = choose|i: int| 0 <= i < s.drop_last().len() && s.drop_last()[i].key@ == k;
            assert(s[i].key@ == k);
        } else {
            assert forall|i: int| 0 <= i < s.len() implies s[i].key@ != k by {
                if i < s.len() - 1 {
                    assert(s.drop_last()[i].key@ != k);
                }
            }
        }
    }
}

/// With unique keys, the entry found at an index gives the denoted value.
proof fn lemma_meta_map_get(s: Seq<Metadata>, i: int)
    requires
        0 <= i < s.len(),
        forall|p: int, q: int|
            0 <= p < q < s.len() ==> (#[trigger] s[p].key)@ != (#[trigger] s[q].key)@,
    ensures
        meta_map(s).contains_key(s[i].key@),
        meta_map(s)[s[i].key@] == s[i].value@,
    decreases s.len(),
{
    if i == s.len() - 1 {
    } else {
        assert(s[i].key@ != s[s.len() - 1].key@);
        assert(s.drop_last()[i] == s[i]);
        lemma_meta_map_get(s.drop_last(), i);
    }
}

/// Replacing the value stored at an index denotes a map insert on its key.
proof fn lemma_meta_map_update(s: Seq<Metadata>, i: int, m: Metadata)
    requires
        0 <= i < s.len(),
        m.key@ == s[i].key@,
        forall|p: int, q: int|
            0 <= p < q < s.len() ==> (#[trigger] s[p].key)@ != (#[trigger] s[q].key)@,
    ensures
        meta_map(s.update(i, m)) == meta_map(s).insert(m.key@, m.value@),
    decreases s.len(),
{
    let t = s.update(i, m);
    if i == s.len() - 1 {
        assert(t.drop_last() =~= s.drop_last());
        assert(meta_map(t) =~= meta_map(s).insert(m.key@, m.value@));
    } else {
        assert(t.drop_last() =~= s.drop_last().update(i, m));
        assert(s.drop_last()[i] == s[i]);
        lemma_meta_map_update(s.drop_last(), i, m);
        assert(s[i].key@ != s[s.len() - 1].key@);
        assert(t.last() == s.last());
        assert(meta_map(t) =~= meta_map(s).insert(m.key@, m.value@));
    }
}

/// The store handle. It exclusively owns its contents; operations borrow it
/// for the duration of one call.
pub struct Database {
    comics: Vec<Comics>,
    chunks: Vec<StoredChunk>,
    meta: Vec<Metadata>,
    next_chunk_id: u64,
}

impl View for Database {
    type V = StoreModel;

    closed spec fn view(&self) -> StoreModel {
        StoreModel {
            comics: comics_views(self.comics@),
            chunks: stored_views(self.chunks@),
            meta: meta_map(self.meta@),
            next_chunk_id: self.next_chunk_id,
        }
    }
}

impl Database {
    /// Well-formedness: the model invariant holds, metadata keys are unique,
    /// and every stored blob has the packed size of one full embedding.
    pub closed spec fn wf(&self) -> bool {
        &&& self@.inv()
        &&& forall|p: int, q: int|
            0 <= p < q < self.meta@.len() ==> (#[trigger] self.meta@[p].key)@
                != (#[trigger] self.meta@[q].key)@
        &&& forall|i: int|
            0 <= i < self.chunks@.len() ==> (#[trigger] self.chunks@[i].embedding_blob)@.len()
                == 4 * EMBEDDING_DIM
    }

    /// A well-formed store satisfies the model invariant.
    pub proof fn lemma_wf_inv(&self)
        requires
            self.wf(),
        ensures
            self@.inv(),
    {
    }

    /// Creates a store at a fresh location: no comics, no chunks, and the
    /// schema initialization marker already recorded.
    pub fn new() -> (db: Database)
        ensures
            db.wf(),
            db@.comics == Seq::<ComicsView>::empty(),
            db@.chunks == Seq::<ChunkRow>::empty(),
            db@.meta == Map::<Seq<char>, Seq<char>>::empty().insert("INITIALIZED"@, "true"@),
            db@.initialized(),
            db@.next_chunk_id == 1,
    {
        let mut meta: Vec<Metadata> = Vec::new();
        meta.push(Metadata { key: "INITIALIZED".to_owned(), value: "true".to_owned() });
        let db = Database { comics: Vec::new(), chunks: Vec::new(), meta, next_chunk_id: 1 };
        proof {
            assert(db.meta@.drop_last() =~= Seq::<Metadata>::empty());
            assert(meta_map(Seq::<Metadata>::empty()) =~= Map::<Seq<char>, Seq<char>>::empty());
            assert(db@.meta =~= Map::<Seq<char>, Seq<char>>::empty().insert(
                "INITIALIZED"@,
                "true"@,
            ));
            assert(db@.comics =~= Seq::<ComicsView>::empty());
            assert(db@.chunks =~= Seq::<ChunkRow>::empty());
        }
        db
    }

    /// Re-opens a store whose contents were left behind by an earlier
    /// session. Succeeds, handing the contents back untouched, exactly when
    /// the initialization marker is present and affirmative; any other state
    /// is rejected rather than silently re-initialized.
    pub fn reopen(self) -> (r: Result<Database, DatabaseError>)
        requires
            self.wf(),
        ensures
            match r {
                Ok(db) => self@.initialized() && db.wf() && db@ == self@,
                Err(e) => !self@.initialized() && e matches DatabaseError::InitializationError(_),
            },
    {
        match self.get_metadata("INITIALIZED") {
            Ok(marker) => {
                if marker.value == "true".to_owned() {
                    Ok(self)
                } else {
                    Err(DatabaseError::InitializationError(
                        "existing storage location carries a non-affirmative initialization marker".to_owned(),
                    ))
                }
            }
            Err(_) => Err(DatabaseError::InitializationError(
                "existing storage location carries no initialization marker".to_owned(),
            )),
        }
    }

    /// Looks up the metadata entry under `key`. Absence is reported as the
    /// distinct not-found kind, never as a generic failure.
    pub fn get_metadata(&self, key: &str) -> (r: Result<Metadata, DatabaseError>)
        requires
            self.wf(),
        ensures
            match r {
                Ok(m) => {
                    &&& self@.meta.contains_key(key@)
                    &&& m.key@ == key@
                    &&& m.value@ == self@.meta[key@]
                },
                Err(e) => {
                    &&& !self@.meta.contains_key(key@)
                    &&& e matches DatabaseError::MetadataNotFound(k) && k@ == key@
                },
            },
    {
        let owned = key.to_owned();
        let n = self.meta.len();
        let mut i: usize = 0;
        while i < n
            invariant
                i <= n,
                n == self.meta@.len(),
                owned@ == key@,
                self.wf(),
                forall|j: int| 0 <= j < i ==> (#[trigger] self.meta@[j].key)@ != key@,
            decreases n - i,
        {
            if self.meta[i].key == owned {
                let found = self.meta[i].clone();
                proof {
                    lemma_meta_map_get(self.meta@, i as int);
                }
                return Ok(found);
            }
            i = i + 1;
        }
        proof {
            lemma_meta_map_contains(self.meta@, key@);
        }
        Err(DatabaseError::MetadataNotFound(owned))
    }

    /// Records `value` under `key`, inserting the entry if the key is absent
    /// and overwriting its value if present. Setting the same key twice
    /// leaves whatever the second call wrote: the operation is an upsert.
    pub fn set_metadata(&mut self, key: &str, value: String) -> (r: Result<(), DatabaseError>)
        requires
            old(self).wf(),
        ensures
            final(self).wf(),
            r is Ok,
            final(self)@.meta == old(self)@.meta.insert(key@, value@),
            final(self)@.comics == old(self)@.comics,
            final(self)@.chunks == old(self)@.chunks,
            final(self)@.next_chunk_id == old(self)@.next_chunk_id,
    {
        let owned = key.to_owned();
        let n = self.meta.len();
        let mut i: usize = 0;
        while i < n
            invariant
                i <= n,
                n == self.meta@.len(),
                owned@ == key@,
                self.wf(),
                *self == *old(self),
                forall|j: int| 0 <= j < i ==> (#[trigger] self.meta@[j].key)@ != key@,
            decreases n - i,
        {
            if self.meta[i].key == owned {
                let entry = Metadata { key: owned, value };
                proof {
                    lemma_meta_map_update(self.meta@, i as int, entry);
                }
                self.meta.set(i, entry);
                return Ok(());
            }
            i = i + 1;
        }
        proof {
            lemma_meta_map_contains(self.meta@, key@);
        }
        let entry = Metadata { key: owned, value };
        self.meta.push(entry);
        proof {
            assert(self.meta@.drop_last() =~= old(self).meta@);
        }
        Ok(())
    }

    /// The position of the comic record numbered `comic_number`, if any.
    fn find_comic_index(&self, comic_number: u64) -> (r: Option<usize>)
        requires
            self.wf(),
        ensures
            match r {
                Some(i) => i < self@.comics.len() && self@.comics[i as int].comic_number
                    == comic_number,
                None => !self@.has_comic(comic_number),
            },
    {
        let n = self.comics.len();
        let mut i: usize = 0;
        while i < n
            invariant
                i <= n,
                n == self.comics@.len(),
                self.wf(),
                forall|j: int| 0 <= j < i ==> (#[trigger] self@.comics[j]).comic_number
                    != comic_number,
            decreases n - i,
        {
            if self.comics[i].comic_number == comic_number {
                return Some(i);
            }
            i = i + 1;
        }
        None
    }

    /// Inserts a new comic record. Fails with the conflict kind, leaving the
    /// store unchanged, exactly when a comic with the same number is already
    /// present.
    pub fn insert_comic(&mut self, comic: Comics) -> (r: Result<(), DatabaseError>)
        requires
            old(self).wf(),
        ensures
            final(self).wf(),
            match r {
                Ok(()) => {
                    &&& !old(self)@.has_comic(comic.comic_number)
                    &&& final(self)@ == old(self)@.with_comic(comic@)
                },
                Err(e) => {
                    &&& old(self)@.has_comic(comic.comic_number)
                    &&& e == DatabaseError::ComicAlreadyExists(comic.comic_number)
                    &&& final(self)@ == old(self)@
                },
            },
    {
        match self.find_comic_index(comic.comic_number) {
            Some(i) => {
                proof {
                    self@.lemma_comic_at(i as int);
                }
                Err(DatabaseError::ComicAlreadyExists(comic.comic_number))
            }
            None => {
                self.comics.push(comic);
                proof {
                    let prev = old(self)@;
                    let now = self@;
                    assert(now.comics =~= prev.comics.push(comic@));
                    assert(now =~= prev.with_comic(comic@));
                    assert forall|x: u64| prev.has_comic(x) implies now.has_comic(x) by {
                        let w = choose|w: int|
                            0 <= w < prev.comics.len() && prev.comics[w].comic_number == x;
                        assert(now.comics[w].comic_number == x);
                    }
                    assert(now.inv());
                }
                Ok(())
            }
        }
    }

    /// Looks up a comic by number; absence is a normal `None`, not an error.
    pub fn get_comic_by_number(&self, comic_number: u64) -> (r: Result<Option<Comics>, DatabaseError>)
        requires
            self.wf(),
        ensures
            match r {
                Ok(Some(c)) => self@.has_comic(comic_number) && c@ == self@.comic_at(comic_number)
                    && c.comic_number == comic_number,
                Ok(None) => !self@.has_comic(comic_number),
                Err(_) => false,
            },
    {
        match self.find_comic_index(comic_number) {
            Some(i) => {
                let found = self.comics[i].clone();
                proof {
                    self@.lemma_comic_at(i as int);
                }
                Ok(Some(found))
            }
            None => Ok(None),
        }
    }

    /// Whether a comic with this number exists.
    pub fn comic_exists(&self, comic_number: u64) -> (r: Result<bool, DatabaseError>)
        requires
            self.wf(),
        ensures
            r matches Ok(b) && b == self@.has_comic(comic_number),
    {
        match self.get_comic_by_number(comic_number) {
            Ok(found) => Ok(found.is_some()),
            Err(e) => Err(e),
        }
    }

    /// Updates the revision bookkeeping of an existing comic. Fails with the
    /// not-found kind, writing nothing and creating no record, exactly when
    /// no comic with this number exists.
    pub fn update_comic(
        &mut self,
        comic_number: u64,
        last_revision_id: u64,
        last_revision_timestamp: String,
        updated_at: String,
    ) -> (r: Result<(), DatabaseError>)
        requires
            old(self).wf(),
        ensures
            final(self).wf(),
            match r {
                Ok(()) => {
                    &&& old(self)@.has_comic(comic_number)
                    &&& final(self)@ == old(self)@.with_comic_updated(
                        comic_number,
                        last_revision_id,
                        last_revision_timestamp@,
                        updated_at@,
                    )
                },
                Err(e) => {
                    &&& !old(self)@.has_comic(comic_number)
                    &&& e == DatabaseError::ComicNotFound(comic_number)
                    &&& final(self)@ == old(self)@
                },
            },
    {
        match self.find_comic_index(comic_number) {
            None => Err(DatabaseError::ComicNotFound(comic_number)),
            Some(i) => {
                let c = &self.comics[i];
                let updated = Comics {
                    comic_number: c.comic_number,
                    title: c.title.clone(),
                    url: c.url.clone(),
                    xkcd_url: c.xkcd_url.clone(),
                    hover_text: match &c.hover_text {
                        Some(h) => Some(h.clone()),
                        None => None,
                    },
                    last_revision_id,
                    last_revision_timestamp,
                    scraped_at: c.scraped_at.clone(),
                    updated_at,
                };
                self.comics.set(i, updated);
                proof {
                    let prev = old(self)@;
                    let now = self@;
                    let target = prev.with_comic_updated(
                        comic_number,
                        last_revision_id,
                        last_revision_timestamp@,
                        updated_at@,
                    );
                    assert forall|j: int| 0 <= j < now.comics.len() implies now.comics[j]
                        == target.comics[j] by {
                        if j != i as int {
                            if j < i as int {
                                assert(prev.comics[j].comic_number
                                    != prev.comics[i as int].comic_number);
                            } else {
                                assert(prev.comics[i as int].comic_number
                                    != prev.comics[j].comic_number);
                            }
                        }
                    }
                    assert(now.comics =~= target.comics);
                    assert(now =~= target);
                    assert forall|x: u64| prev.has_comic(x) implies now.has_comic(x) by {
                        let w = choose|w: int|
                            0 <= w < prev.comics.len() && prev.comics[w].comic_number == x;
                        assert(now.comics[w].comic_number == x);
                    }
                    assert(now.inv());
                }
                Ok(())
            }
        }
    }

    /// The highest comic number in the store; the distinct no-comics kind
    /// when the store holds none.
    pub fn get_max_comic_number(&self) -> (r: Result<u64, DatabaseError>)
        requires
            self.wf(),
        ensures
            match r {
                Ok(m) => self@.has_comic(m) && forall|i: int|
                    0 <= i < self@.comics.len() ==> (#[trigger] self@.comics[i]).comic_number <= m,
                Err(e) => self@.comics.len() == 0 && e == DatabaseError::NoComicsFound,
            },
    {
        let n = self.comics.len();
        if n == 0 {
            return Err(DatabaseError::NoComicsFound);
        }
        let mut best: u64 = self.comics[0].comic_number;
        let ghost mut best_at: int = 0;
        let mut i: usize = 1;
        while i < n
            invariant
                1 <= i <= n,
                n == self.comics@.len(),
                self.wf(),
                0 <= best_at < n,
                self@.comics[best_at].comic_number == best,
                forall|j: int| 0 <= j < i ==> (#[trigger] self@.comics[j]).comic_number <= best,
            decreases n - i,
        {
            if self.comics[i].comic_number > best {
                best = self.comics[i].comic_number;
                proof {
                    best_at = i as int;
                }
            }
            i = i + 1;
        }
        proof {
            assert(self@.has_comic(best));
        }
        Ok(best)
    }

    /// How many comics the store holds.
    pub fn count_comics(&self) -> (r: u64)
        ensures
            r == self@.comics.len(),
    {
        self.comics.len() as u64
    }

    /// Deletes an existing comic and, by cascade, every chunk that belongs
    /// to it. Fails with the not-found kind, deleting nothing, exactly when
    /// no comic with this number exists.
    pub fn delete_comic(&mut self, comic_number: u64) -> (r: Result<(), DatabaseError>)
        requires
            old(self).wf(),
        ensures
            final(self).wf(),
            match r {
                Ok(()) => {
                    &&& old(self)@.has_comic(comic_number)
                    &&& final(self)@ == old(self)@.without_comic(comic_number)
                },
                Err(e) => {
                    &&& !old(self)@.has_comic(comic_number)
                    &&& e == DatabaseError::ComicNotFound(comic_number)
                    &&& final(self)@ == old(self)@
                },
            },
    {
        match self.find_comic_index(comic_number) {
            None => Err(DatabaseError::ComicNotFound(comic_number)),
            Some(i) => {
                let _removed = self.remove_chunks_of(comic_number);
                let ghost mid = self@;
                self.comics.remove(i);
                proof {
                    let prev = old(self)@;
                    let now = self@;
                    assert(now.comics =~= mid.comics.remove(i as int));
                    lemma_remove_unique_is_filter(prev.comics, i as int, comic_number);
                    assert(now.comics =~= prev.comics.filter(comic_not_numbered(comic_number)));
                    assert(now =~= prev.without_comic(comic_number));
                    // Well-formedness: every surviving chunk belongs to a
                    // surviving comic.
                    broadcast use Seq::lemma_filter_pred, Seq::lemma_filter_contains;

                    assert forall|j: int| 0 <= j < now.chunks.len() implies now.has_comic(
                        #[trigger] now.chunks[j].comic_number,
                    ) by {
                        let x = now.chunks[j].comic_number;
                        assert(other_comic(comic_number)(now.chunks[j]));
                        assert(x != comic_number);
                        assert(mid.has_comic(x));
                        let w = choose|w: int|
                            0 <= w < mid.comics.len() && mid.comics[w].comic_number == x;
                        assert(comic_not_numbered(comic_number)(mid.comics[w]));
                        assert(now.comics.contains(mid.comics[w]));
                        let v = choose|v: int|
                            0 <= v < now.comics.len() && now.comics[v] == mid.comics[w];
                        assert(now.comics[v].comic_number == x);
                    }
                    assert(now.inv());
                }
                Ok(())
            }
        }
    }

    /// Orders comic records by number ascending; the result holds the same
    /// records.
    fn sort_comics_by_number(v: Vec<Comics>) -> (r: Vec<Comics>)
        ensures
            comics_views(r@).to_multiset() == comics_views(v@).to_multiset(),
            forall|p: int, q: int|
                0 <= p < q < r@.len() ==> (#[trigger] r@[p]).comic_number
                    <= (#[trigger] r@[q]).comic_number,
    {
        broadcast use vstd::seq_lib::group_to_multiset_ensures;
        broadcast use vstd::multiset::group_multiset_axioms;

        let mut rest = v;
        let mut out: Vec<Comics> = Vec::new();
        proof {
            assert(comics_views(out@) =~= Seq::<ComicsView>::empty());
            assert(comics_views(out@).to_multiset().add(comics_views(rest@).to_multiset())
                =~= comics_views(v@).to_multiset());
        }
        while rest.len() > 0
            invariant
                comics_views(out@).to_multiset().add(comics_views(rest@).to_multiset())
                    == comics_views(v@).to_multiset(),
                forall|p: int, q: int|
                    0 <= p < q < out@.len() ==> (#[trigger] out@[p]).comic_number
                        <= (#[trigger] out@[q]).comic_number,
                forall|p: int, q: int|
                    0 <= p < out@.len() && 0 <= q < rest@.len() ==> (#[trigger] out@[p])
                        .comic_number <= (#[trigger] rest@[q]).comic_number,
            decreases rest@.len(),
        {
            let mut min_i: usize = 0;
            let mut j: usize = 1;
            while j < rest.len()
                invariant
                    rest@.len() > 0,
                    min_i < j <= rest@.len(),
                    forall|t: int|
                        0 <= t < j ==> rest@[min_i as int].comic_number <= (#[trigger] rest@[t])
                            .comic_number,
                decreases rest@.len() - j,
            {
                if rest[j].comic_number < rest[min_i].comic_number {
                    min_i = j;
                }
                j = j + 1;
            }
            let ghost pre_rest = rest@;
            let ghost pre_out = out@;
            let c = rest.remove(min_i);
            out.push(c);
            proof {
                broadcast use vstd::seq_lib::group_to_multiset_ensures;
                broadcast use vstd::multiset::group_multiset_axioms;

                lemma_comics_views_remove(pre_rest, min_i as int);
                lemma_comics_views_push(pre_out, c);
                let x = c@;
                let vs = comics_views(pre_rest);
                assert(vs[min_i as int] == x);
                assert(vs.contains(x));
                assert(vs.to_multiset().count(x) > 0);
                assert(vs.remove(min_i as int).to_multiset() =~= vs.to_multiset().remove(x));
                assert(comics_views(rest@) == vs.remove(min_i as int));
                assert(comics_views(rest@).to_multiset() =~= vs.to_multiset().remove(x));
                assert(comics_views(pre_out).push(x).to_multiset() =~= comics_views(
                    pre_out,
                ).to_multiset().insert(x));
                assert(comics_views(out@).to_multiset() =~= comics_views(
                    pre_out,
                ).to_multiset().insert(x));
                assert(comics_views(out@).to_multiset().add(comics_views(rest@).to_multiset())
                    =~= comics_views(pre_out).to_multiset().add(vs.to_multiset()));
                assert forall|p: int, q: int|
                    0 <= p < out@.len() && 0 <= q < rest@.len() implies (#[trigger] out@[p])
                    .comic_number <= (#[trigger] rest@[q]).comic_number by {
                    if q < min_i {
                        assert(rest@[q] == pre_rest[q]);
                    } else {
                        assert(rest@[q] == pre_rest[q + 1]);
                    }
                    if p == out@.len() - 1 {
                        assert(out@[p] == pre_rest[min_i as int]);
                    }
                }
            }
        }
        proof {
            broadcast use vstd::seq_lib::group_to_multiset_ensures;
            broadcast use vstd::multiset::group_multiset_axioms;

            assert(comics_views(rest@) =~= Seq::<ComicsView>::empty());
            assert(comics_views(rest@).to_multiset() =~= Multiset::<ComicsView>::empty());
            assert(comics_views(out@).to_multiset() =~= comics_views(v@).to_multiset());
        }
        out
    }

    /// The comics among the requested numbers that exist, each once and in
    /// ascending number order, whatever the order and multiplicity of the
    /// request; an empty request yields an empty answer.
    pub fn get_comics_batch(&self, comic_numbers: Vec<u64>) -> (r: Result<Vec<Comics>, DatabaseError>)
        requires
            self.wf(),
        ensures
            r matches Ok(v) && is_batch_listing(self@, comic_numbers@, comics_views(v@)),
    {
        broadcast use Seq::lemma_filter_pred, Seq::lemma_filter_contains,
            Seq::lemma_filter_contains_rev, Seq::lemma_index_contains;

        let pred = Ghost(comic_in(comic_numbers@));
        let n = self.comics.len();
        let mut collected: Vec<Comics> = Vec::new();
        let mut i: usize = 0;
        proof {
            assert(comics_views(collected@) =~= Seq::<ComicsView>::empty());
            assert(self@.comics.take(0).filter(pred@) =~= Seq::<ComicsView>::empty()) by {
                reveal(Seq::filter);
                assert(self@.comics.take(0) =~= Seq::<ComicsView>::empty());
            }
        }
        while i < n
            invariant
                i <= n,
                n == self.comics@.len(),
                self.wf(),
                pred@ == comic_in(comic_numbers@),
                comics_views(collected@) == self@.comics.take(i as int).filter(pred@),
            decreases n - i,
        {
            let ghost pre = collected@;
            proof {
                lemma_filter_take_succ(self@.comics, i as int, pred@);
            }
            if contains_u64(&comic_numbers, self.comics[i].comic_number) {
                let c = self.comics[i].clone();
                collected.push(c);
                proof {
                    assert(pred@(self@.comics[i as int]));
                    lemma_comics_views_push(pre, c);
                    assert(comics_views(collected@) =~= self@.comics.take(i + 1).filter(pred@));
                }
            } else {
                proof {
                    assert(!pred@(self@.comics[i as int]));
                }
            }
            i = i + 1;
        }
        proof {
            assert(self@.comics.take(n as int) =~= self@.comics);
        }
        let ghost cvs = comics_views(collected@);
        proof {
            lemma_filter_keeps_distinct_numbers(self@.comics, pred@);
        }
        let sorted = Self::sort_comics_by_number(collected);
        let ghost svs = comics_views(sorted@);
        proof {
            broadcast use vstd::seq_lib::group_to_multiset_ensures;
            broadcast use vstd::multiset::group_multiset_axioms;

            let m = self@;
            // Every answer record is a requested, existing comic's record.
            assert forall|t: int| 0 <= t < svs.len() implies {
                &&& comic_numbers@.contains((#[trigger] svs[t]).comic_number)
                &&& m.has_comic(svs[t].comic_number)
                &&& svs[t] == m.comic_at(svs[t].comic_number)
            } by {
                assert(svs.contains(svs[t]));
                assert(svs.to_multiset().count(svs[t]) > 0);
                assert(cvs.to_multiset().count(svs[t]) > 0);
                assert(cvs.contains(svs[t]));
                let a = choose|a: int| 0 <= a < cvs.len() && cvs[a] == svs[t];
                assert(pred@(cvs[a]));
                assert(m.comics.contains(cvs[a]));
                let w = choose|w: int| 0 <= w < m.comics.len() && m.comics[w] == cvs[a];
                m.lemma_comic_at(w);
            }
            // Every requested, existing comic appears in the answer.
            assert forall|x: u64|
                #![auto]
                comic_numbers@.contains(x) && m.has_comic(x) implies exists|t: int|
                0 <= t < svs.len() && svs[t].comic_number == x by {
                let w = choose|w: int| 0 <= w < m.comics.len() && m.comics[w].comic_number == x;
                assert(pred@(m.comics[w]));
                assert(cvs.contains(m.comics[w]));
                assert(cvs.to_multiset().count(m.comics[w]) > 0);
                assert(svs.to_multiset().count(m.comics[w]) > 0);
                assert(svs.contains(m.comics[w]));
                let t = choose|t: int| 0 <= t < svs.len() && svs[t] == m.comics[w];
                assert(svs[t].comic_number == x);
            }
            // Strict order: the numbers in the answer are pairwise distinct.
            assert(cvs.no_duplicates()) by {
                assert forall|p: int, q: int|
                    0 <= p < cvs.len() && 0 <= q < cvs.len() && p != q implies cvs[p] != cvs[q] by {
                    if p < q {
                        assert(cvs[p].comic_number != cvs[q].comic_number);
                    } else {
                        assert(cvs[q].comic_number != cvs[p].comic_number);
                    }
                }
            }
            cvs.lemma_multiset_has_no_duplicates();
            svs.lemma_multiset_has_no_duplicates_conv();
            assert forall|p: int, q: int| 0 <= p < q < svs.len() implies (#[trigger] svs[p])
                .comic_number < (#[trigger] svs[q]).comic_number by {
                assert(svs[p].comic_number <= svs[q].comic_number) by {
                    assert(sorted@[p].comic_number <= sorted@[q].comic_number);
                }
                if svs[p].comic_number == svs[q].comic_number {
                    // Both are records of the same number drawn from the
                    // collected records, whose numbers are pairwise
                    // distinct; so they are one record, twice.
                    assert(svs.contains(svs[p]));
                    assert(svs.to_multiset().count(svs[p]) > 0);
                    assert(cvs.to_multiset().count(svs[p]) > 0);
                    assert(cvs.contains(svs[p]));
                    assert(svs.contains(svs[q]));
                    assert(svs.to_multiset().count(svs[q]) > 0);
                    assert(cvs.to_multiset().count(svs[q]) > 0);
                    assert(cvs.contains(svs[q]));
                    let a = choose|a: int| 0 <= a < cvs.len() && cvs[a] == svs[p];
                    let b = choose|b: int| 0 <= b < cvs.len() && cvs[b] == svs[q];
                    if a < b {
                        assert(cvs[a].comic_number != cvs[b].comic_number);
                    } else if b < a {
                        assert(cvs[b].comic_number != cvs[a].comic_number);
                    }
                    assert(svs[p] == svs[q]);
                    assert(!svs.no_duplicates());
                }
            }
        }
        Ok(sorted)
    }

    /// The comics whose `updated_at` text sorts strictly before the given
    /// cutoff, in store order. Timestamps in one common ISO-8601 shape sort
    /// chronologically under this order.
    pub fn get_comics_needing_update(&self, older_than: &str) -> (r: Result<Vec<Comics>, DatabaseError>)
        requires
            self.wf(),
        ensures
            r matches Ok(v) && comics_views(v@) == self@.comics.filter(updated_before(older_than@)),
    {
        let ghost pred = updated_before(older_than@);
        let n = self.comics.len();
        let mut collected: Vec<Comics> = Vec::new();
        let mut i: usize = 0;
        proof {
            assert(comics_views(collected@) =~= Seq::<ComicsView>::empty());
            assert(self@.comics.take(0).filter(pred) =~= Seq::<ComicsView>::empty()) by {
                reveal(Seq::filter);
                assert(self@.comics.take(0) =~= Seq::<ComicsView>::empty());
            }
        }
        while i < n
            invariant
                i <= n,
                n == self.comics@.len(),
                self.wf(),
                pred == updated_before(older_than@),
                comics_views(collected@) == self@.comics.take(i as int).filter(pred),
            decreases n - i,
        {
            let ghost pre = collected@;
            proof {
                lemma_filter_take_succ(self@.comics, i as int, pred);
            }
            if str_lt(self.comics[i].updated_at.as_str(), older_than) {
                let c = self.comics[i].clone();
                collected.push(c);
                proof {
                    assert(pred(self@.comics[i as int]));
                    lemma_comics_views_push(pre, c);
                    assert(comics_views(collected@) =~= self@.comics.take(i + 1).filter(pred));
                }
            } else {
                proof {
                    assert(!pred(self@.comics[i as int]));
                }
            }
            i = i + 1;
        }
        proof {
            assert(self@.comics.take(n as int) =~= self@.comics);
        }
        Ok(collected)
    }

    /// Builds the search hit for the stored chunk at position `i`, joining
    /// it with its owning comic's display fields.
    fn make_result(&self, i: usize) -> (r: ChunkSearchResult)
        requires
            self.wf(),
            i < self@.chunks.len(),
        ensures
            r@ == result_view(self@, self@.chunks[i as int]),
    {
        let c = &self.chunks[i];
        proof {
            assert(self@.has_comic(self@.chunks[i as int].comic_number));
        }
        match self.find_comic_index(c.comic_number) {
            Some(ci) => {
                proof {
                    self@.lemma_comic_at(ci as int);
                }
                let comic = &self.comics[ci];
                ChunkSearchResult {
                    chunk_id: c.id,
                    comic_number: c.comic_number,
                    chunk_text: c.chunk_text.clone(),
                    section_type: match &c.section_type {
                        Some(s) => Some(s.name()),
                        None => None,
                    },
                    comic_title: comic.title.clone(),
                    xkcd_url: comic.xkcd_url.clone(),
                    hover_text: match &comic.hover_text {
                        Some(h) => Some(h.clone()),
                        None => None,
                    },
                }
            }
            None => unreached(),
        }
    }

    /// A similarity search over every stored chunk. The query embedding is
    /// validated first; the store then hands back the first `top_k` rows in
    /// insertion order, each joined with its owning comic. Which rows a
    /// nearest-neighbor engine would pick, and in what order, is that
    /// engine's own affair; callers must not read a similarity order into
    /// the result.
    pub fn vector_search(&self, query_embedding: Vec<u32>, top_k: usize) -> (r: Result<
        Vec<ChunkSearchResult>,
        DatabaseError,
    >)
        requires
            self.wf(),
        ensures
            match r {
                Ok(v) => {
                    &&& query_embedding@.len() == EMBEDDING_DIM
                    &&& v@.len() == if top_k <= self@.chunks.len() {
                        top_k as int
                    } else {
                        self@.chunks.len() as int
                    }
                    &&& results_views(v@) == self@.chunks.take(v@.len() as int).map_values(
                        result_mapper(self@),
                    )
                },
                Err(e) => {
                    &&& query_embedding@.len() != EMBEDDING_DIM
                    &&& e matches DatabaseError::InvalidEmbeddingDimension { expected, actual }
                        && expected == EMBEDDING_DIM && actual == query_embedding@.len()
                },
            },
    {
        match validate_embedding(&query_embedding) {
            Err(e) => {
                return Err(e);
            }
            Ok(()) => {}
        }
        let limit = if top_k <= self.chunks.len() {
            top_k
        } else {
            self.chunks.len()
        };
        let mut out: Vec<ChunkSearchResult> = Vec::new();
        let mut i: usize = 0;
        proof {
            assert(results_views(out@) =~= Seq::<SearchResultView>::empty());
            assert(results_views(out@) =~= self@.chunks.take(0).map_values(result_mapper(self@)));
        }
        while i < limit
            invariant
                i <= limit,
                limit <= self@.chunks.len(),
                self.wf(),
                out@.len() == i,
                results_views(out@) == self@.chunks.take(i as int).map_values(
                    result_mapper(self@),
                ),
            decreases limit - i,
        {
            let ghost pre = out@;
            let hit = self.make_result(i);
            out.push(hit);
            proof {
                assert(results_views(out@) =~= results_views(pre).push(hit@));
                assert(self@.chunks.take(i + 1) =~= self@.chunks.take(i as int).push(
                    self@.chunks[i as int],
                ));
                assert(results_views(out@) =~= self@.chunks.take(i + 1).map_values(
                    result_mapper(self@),
                ));
            }
            i = i + 1;
        }
        Ok(out)
    }

    /// A similarity search restricted to the chunks of the given comics. An
    /// empty restriction yields an empty answer outright, whatever the query
    /// or the count; otherwise the query is validated and the store hands
    /// back the first `top_k` candidate rows in insertion order, joined as
    /// in [`Database::vector_search`].
    pub fn vector_search_filtered(
        &self,
        query_embedding: Vec<u32>,
        top_k: usize,
        comic_numbers: Vec<u64>,
    ) -> (r: Result<Vec<ChunkSearchResult>, DatabaseError>)
        requires
            self.wf(),
        ensures
            match r {
                Ok(v) => {
                    &&& comic_numbers@.len() == 0 ==> v@.len() == 0
                    &&& comic_numbers@.len() > 0 ==> {
                        let cands = self@.chunks.filter(chunk_comic_in(comic_numbers@));
                        &&& query_embedding@.len() == EMBEDDING_DIM
                        &&& v@.len() == if top_k <= cands.len() {
                            top_k as int
                        } else {
                            cands.len() as int
                        }
                        &&& results_views(v@) == cands.take(v@.len() as int).map_values(
                            result_mapper(self@),
                        )
                    }
                },
                Err(e) => {
                    &&& comic_numbers@.len() > 0
                    &&& query_embedding@.len() != EMBEDDING_DIM
                    &&& e matches DatabaseError::InvalidEmbeddingDimension { expected, actual }
                        && expected == EMBEDDING_DIM && actual == query_embedding@.len()
                },
            },
    {
        if comic_numbers.len() == 0 {
            return Ok(Vec::new());
        }
        match validate_embedding(&query_embedding) {
            Err(e) => {
                return Err(e);
            }
            Ok(()) => {}
        }
        let ghost pred = chunk_comic_in(comic_numbers@);
        // Gather the candidate positions: the stored chunks of the
        // requested comics, in insertion order.
        let n = self.chunks.len();
        let mut cand_at: Vec<usize> = Vec::new();
        let mut i: usize = 0;
        proof {
            assert(positions_rows(self@, cand_at@) =~= Seq::<ChunkRow>::empty());
            assert(self@.chunks.take(0).filter(pred) =~= Seq::<ChunkRow>::empty()) by {
                reveal(Seq::filter);
                assert(self@.chunks.take(0) =~= Seq::<ChunkRow>::empty());
            }
        }
        while i < n
            invariant
                i <= n,
                n == self.chunks@.len(),
                self.wf(),
                pred == chunk_comic_in(comic_numbers@),
                forall|t: int| 0 <= t < cand_at@.len() ==> (#[trigger] cand_at@[t]) < n,
                positions_rows(self@, cand_at@) == self@.chunks.take(i as int).filter(pred),
            decreases n - i,
        {
            let ghost pre = cand_at@;
            proof {
                lemma_filter_take_succ(self@.chunks, i as int, pred);
            }
            if contains_u64(&comic_numbers, self.chunks[i].comic_number) {
                cand_at.push(i);
                proof {
                    assert(pred(self@.chunks[i as int]));
                    assert(positions_rows(self@, cand_at@) =~= positions_rows(self@, pre).push(
                        self@.chunks[i as int],
                    ));
                    assert(positions_rows(self@, cand_at@) =~= self@.chunks.take(i + 1).filter(
                        pred,
                    ));
                }
            } else {
                proof {
                    assert(!pred(self@.chunks[i as int]));
                }
            }
            i = i + 1;
        }
        proof {
            assert(self@.chunks.take(n as int) =~= self@.chunks);
        }
        // Hand back the first `top_k` candidates, joined with their comics.
        let limit = if top_k <= cand_at.len() {
            top_k
        } else {
            cand_at.len()
        };
        let ghost cands = self@.chunks.filter(pred);
        let mut out: Vec<ChunkSearchResult> = Vec::new();
        let mut j: usize = 0;
        proof {
            assert(results_views(out@) =~= Seq::<SearchResultView>::empty());
            assert(results_views(out@) =~= cands.take(0).map_values(result_mapper(self@)));
        }
        while j < limit
            invariant
                j <= limit,
                limit <= cand_at@.len(),
                self.wf(),
                forall|t: int| 0 <= t < cand_at@.len() ==> (#[trigger] cand_at@[t])
                    < self@.chunks.len(),
                cands == self@.chunks.filter(chunk_comic_in(comic_numbers@)),
                positions_rows(self@, cand_at@) == cands,
                out@.len() == j,
                results_views(out@) == cands.take(j as int).map_values(result_mapper(self@)),
            decreases limit - j,
        {
            let ghost pre = out@;
            let pos = cand_at[j];
            let hit = self.make_result(pos);
            out.push(hit);
            proof {
                assert(self@.chunks[cand_at@[j as int] as int] == cands[j as int]);
                assert(results_views(out@) =~= results_views(pre).push(hit@));
                assert(cands.take(j + 1) =~= cands.take(j as int).push(cands[j as int]));
                assert(results_views(out@) =~= cands.take(j + 1).map_values(
                    result_mapper(self@),
                ));
            }
            j = j + 1;
        }
        Ok(out)
    }

    /// Removes every stored chunk of `comic_number`, returning how many
    /// there were.
    fn remove_chunks_of(&mut self, comic_number: u64) -> (count: u64)
        requires
            old(self).wf(),
        ensures
            final(self).wf(),
            final(self)@ == (StoreModel {
                chunks: old(self)@.chunks.filter(other_comic(comic_number)),
                ..old(self)@
            }),
            count == old(self)@.chunks_of(comic_number).len(),
    {
        let n0 = self.chunks.len();
        let ghost orig = self.chunks@;
        proof {
            assert(orig.len() == n0);
        }
        let mut count: u64 = 0;
        let mut i: usize = 0;
        let ghost mut k: int = 0;
        while i < self.chunks.len()
            invariant
                0 <= k <= orig.len(),
                i <= self.chunks@.len(),
                orig == old(self).chunks@,
                orig.len() <= usize::MAX,
                self.chunks@ == orig.take(k).filter(stored_other(comic_number)) + orig.skip(k),
                i == orig.take(k).filter(stored_other(comic_number)).len(),
                count == k - i,
                self.comics == old(self).comics,
                self.meta == old(self).meta,
                self.next_chunk_id == old(self).next_chunk_id,
                self.wf(),
            decreases self.chunks@.len() - i,
        {
            let ghost pre = self.chunks@;
            let ghost kept = orig.take(k).filter(stored_other(comic_number));
            proof {
                assert(k < orig.len());
                assert(pre[i as int] == orig.skip(k)[0]);
                assert(orig.skip(k)[0] == orig[k]);
                lemma_filter_take_succ(orig, k, stored_other(comic_number));
            }
            if self.chunks[i].comic_number == comic_number {
                self.chunks.remove(i);
                count = count + 1;
                proof {
                    assert(!stored_other(comic_number)(orig[k]));
                    assert(orig.take(k + 1).filter(stored_other(comic_number)) == kept);
                    assert(self.chunks@ =~= kept + orig.skip(k + 1));
                    let prev_model = StoreModel {
                        chunks: stored_views(pre),
                        comics: comics_views(self.comics@),
                        meta: meta_map(self.meta@),
                        next_chunk_id: self.next_chunk_id,
                    };
                    assert(stored_views(self.chunks@) =~= stored_views(pre).remove(i as int));
                    lemma_inv_chunks_remove(prev_model, i as int);
                    assert(self@ =~= (StoreModel {
                        chunks: stored_views(pre).remove(i as int),
                        ..prev_model
                    }));
                    assert forall|j: int|
                        0 <= j < self.chunks@.len() implies (#[trigger] self.chunks@[j]
                        .embedding_blob)@.len() == 4 * EMBEDDING_DIM by {
                        if j < i {
                            assert(self.chunks@[j] == pre[j]);
                        } else {
                            assert(self.chunks@[j] == pre[j + 1]);
                        }
                    }
                    k = k + 1;
                }
            } else {
                i = i + 1;
                proof {
                    assert(stored_other(comic_number)(orig[k]));
                    assert(orig.take(k + 1).filter(stored_other(comic_number)) == kept.push(
                        orig[k],
                    ));
                    assert(self.chunks@ =~= kept.push(orig[k]) + orig.skip(k + 1));
                    k = k + 1;
                }
            }
        }
        proof {
            assert(orig.skip(k).len() == 0);
            assert(k == orig.len());
            assert(orig.take(k) =~= orig);
            lemma_stored_filter_facts(orig, comic_number);
            assert(self.chunks@ =~= orig.filter(stored_other(comic_number)));
            assert(self@ =~= (StoreModel {
                chunks: old(self)@.chunks.filter(other_comic(comic_number)),
                ..old(self)@
            }));
            assert(count == orig.len() - orig.filter(stored_other(comic_number)).len());
            assert(count == orig.filter(stored_same(comic_number)).len());
            assert(count == old(self)@.chunks_of(comic_number).len());
        }
        count
    }

    /// Deletes every chunk of `comic_number`, returning how many were
    /// deleted; zero, not an error, when the comic has none or does not
    /// exist.
    pub fn delete_chunks_for_comic(&mut self, comic_number: u64) -> (r: Result<u64, DatabaseError>)
        requires
            old(self).wf(),
        ensures
            final(self).wf(),
            match r {
                Ok(count) => {
                    &&& count == old(self)@.chunks_of(comic_number).len()
                    &&& final(self)@ == (StoreModel {
                        chunks: old(self)@.chunks.filter(other_comic(comic_number)),
                        ..old(self)@
                    })
                },
                Err(_) => false,
            },
    {
        Ok(self.remove_chunks_of(comic_number))
    }

    /// Appends one already-validated chunk as a stored row under the next
    /// identifier. The caller has checked the dimension and the owning
    /// comic's existence.
    fn append_chunk_row(&mut self, chunk: &Chunks) -> (id: u64)
        requires
            old(self).wf(),
            old(self)@.next_chunk_id < u64::MAX,
            chunk.embedding@.len() == EMBEDDING_DIM,
            old(self)@.has_comic(chunk.comic_number),
        ensures
            final(self).wf(),
            id == old(self)@.next_chunk_id,
            final(self)@ == old(self)@.with_chunk(chunk@),
    {
        let id = self.next_chunk_id;
        let blob = encode_embedding(&chunk.embedding);
        let stored = StoredChunk {
            id,
            comic_number: chunk.comic_number,
            chunk_text: chunk.chunk_text.clone(),
            chunk_index: chunk.chunk_index,
            section_type: chunk.section_type,
            embedding_blob: blob,
        };
        self.chunks.push(stored);
        self.next_chunk_id = self.next_chunk_id + 1;
        proof {
            let prev = old(self)@;
            let now = self@;
            lemma_decode_encode(chunk.embedding@);
            assert(stored_view(stored) == row_of(chunk@, id));
            assert(now.chunks =~= prev.chunks.push(row_of(chunk@, id)));
            assert(now =~= prev.with_chunk(chunk@));
            assert forall|p: int, q: int| 0 <= p < q < now.chunks.len() implies #[trigger] now
                .chunks[p].id != #[trigger] now.chunks[q].id by {
                if q == now.chunks.len() - 1 {
                    assert(prev.chunks[p].id < prev.next_chunk_id);
                }
            }
            assert(now.inv());
            assert(encode_spec(chunk.embedding@).len() == EMBEDDING_DIM * 4);
            assert forall|j: int| 0 <= j < self.chunks@.len() implies (#[trigger] self.chunks@[j]
                .embedding_blob)@.len() == 4 * EMBEDDING_DIM by {
                if j < self.chunks@.len() - 1 {
                    assert(self.chunks@[j] == old(self).chunks@[j]);
                }
            }
        }
        id
    }

    /// Inserts one chunk, returning its storage-assigned identifier.
    /// Fails with the dimension kind when the embedding has the wrong
    /// length, and with the constraint kind when the referenced comic does
    /// not exist; either failure leaves the store unchanged.
    pub fn insert_chunk(&mut self, chunk: Chunks) -> (r: Result<u64, DatabaseError>)
        requires
            old(self).wf(),
            old(self)@.next_chunk_id < u64::MAX,
        ensures
            final(self).wf(),
            match r {
                Ok(id) => {
                    &&& chunk.embedding@.len() == EMBEDDING_DIM
                    &&& old(self)@.has_comic(chunk.comic_number)
                    &&& id == old(self)@.next_chunk_id
                    &&& final(self)@ == old(self)@.with_chunk(chunk@)
                },
                Err(e) => {
                    &&& final(self)@ == old(self)@
                    &&& match e {
                        DatabaseError::InvalidEmbeddingDimension { expected, actual } => {
                            &&& chunk.embedding@.len() != EMBEDDING_DIM
                            &&& expected == EMBEDDING_DIM
                            &&& actual == chunk.embedding@.len()
                        },
                        DatabaseError::ConstraintViolation(n) => {
                            &&& chunk.embedding@.len() == EMBEDDING_DIM
                            &&& !old(self)@.has_comic(chunk.comic_number)
                            &&& n == chunk.comic_number
                        },
                        _ => false,
                    }
                },
            },
    {
        match validate_embedding(&chunk.embedding) {
            Err(e) => {
                return Err(e);
            }
            Ok(()) => {}
        }
        match self.find_comic_index(chunk.comic_number) {
            None => Err(DatabaseError::ConstraintViolation(chunk.comic_number)),
            Some(_) => Ok(self.append_chunk_row(&chunk)),
        }
    }

    /// Inserts a batch of chunks all-or-nothing. Every member's embedding is
    /// validated before anything is written; a wrong dimension anywhere, or
    /// a member referencing a comic that does not exist, leaves the store
    /// without any row of the batch. On success the members are appended in
    /// order under consecutive identifiers.
    pub fn insert_chunks_batch(&mut self, chunks: Vec<Chunks>) -> (r: Result<(), DatabaseError>)
        requires
            old(self).wf(),
            old(self)@.next_chunk_id + chunks@.len() <= u64::MAX,
        ensures
            final(self).wf(),
            match r {
                Ok(()) => {
                    &&& forall|i: int|
                        0 <= i < chunks@.len() ==> (#[trigger] chunks@[i]).embedding@.len()
                            == EMBEDDING_DIM
                    &&& forall|i: int|
                        0 <= i < chunks@.len() ==> old(self)@.has_comic(
                            (#[trigger] chunks@[i]).comic_number,
                        )
                    &&& final(self)@ == old(self)@.with_chunks(chunks_views(chunks@))
                },
                Err(e) => {
                    &&& final(self)@ == old(self)@
                    &&& match e {
                        DatabaseError::InvalidEmbeddingDimension { expected, actual } => {
                            &&& expected == EMBEDDING_DIM
                            &&& exists|i: int|
                                {
                                    &&& 0 <= i < chunks@.len()
                                    &&& (#[trigger] chunks@[i]).embedding@.len() != EMBEDDING_DIM
                                    &&& actual == chunks@[i].embedding@.len()
                                    &&& forall|j: int|
                                        0 <= j < i ==> (#[trigger] chunks@[j]).embedding@.len()
                                            == EMBEDDING_DIM
                                }
                        },
                        DatabaseError::ConstraintViolation(n) => {
                            &&& forall|i: int|
                                0 <= i < chunks@.len() ==> (#[trigger] chunks@[i]).embedding@.len()
                                    == EMBEDDING_DIM
                            &&& exists|i: int|
                                {
                                    &&& 0 <= i < chunks@.len()
                                    &&& !old(self)@.has_comic(
                                        (#[trigger] chunks@[i]).comic_number,
                                    )
                                    &&& n == chunks@[i].comic_number
                                    &&& forall|j: int|
                                        0 <= j < i ==> old(self)@.has_comic(
                                            (#[trigger] chunks@[j]).comic_number,
                                        )
                                }
                        },
                        _ => false,
                    }
                },
            },
    {
        let m = chunks.len();
        // Validation pass: no member may reach storage before every
        // embedding has the configured dimension.
        let mut i: usize = 0;
        while i < m
            invariant
                i <= m,
                m == chunks@.len(),
                *self == *old(self),
                self.wf(),
                forall|j: int|
                    0 <= j < i ==> (#[trigger] chunks@[j]).embedding@.len() == EMBEDDING_DIM,
            decreases m - i,
        {
            match validate_embedding(&chunks[i].embedding) {
                Err(e) => {
                    return Err(e);
                }
                Ok(()) => {}
            }
            i = i + 1;
        }
        // Referential pass: every member must point at an existing comic, or
        // nothing is written.
        i = 0;
        while i < m
            invariant
                i <= m,
                m == chunks@.len(),
                *self == *old(self),
                self.wf(),
                forall|j: int|
                    0 <= j < m ==> (#[trigger] chunks@[j]).embedding@.len() == EMBEDDING_DIM,
                forall|j: int|
                    0 <= j < i ==> self@.has_comic((#[trigger] chunks@[j]).comic_number),
            decreases m - i,
        {
            match self.find_comic_index(chunks[i].comic_number) {
                None => {
                    return Err(DatabaseError::ConstraintViolation(chunks[i].comic_number));
                }
                Some(_) => {}
            }
            i = i + 1;
        }
        // The batch itself: one append per member, as one logical
        // transaction; the passes above guarantee no append can fail.
        let ghost start = self@;
        i = 0;
        while i < m
            invariant
                i <= m,
                m == chunks@.len(),
                self.wf(),
                start == old(self)@,
                start.inv(),
                start.next_chunk_id + m <= u64::MAX,
                forall|j: int|
                    0 <= j < m ==> (#[trigger] chunks@[j]).embedding@.len() == EMBEDDING_DIM,
                forall|j: int|
                    0 <= j < m ==> start.has_comic((#[trigger] chunks@[j]).comic_number),
                self@ == start.with_chunks(chunks_views(chunks@).take(i as int)),
            decreases m - i,
        {
            proof {
                assert(self@.comics == start.comics);
                assert(self@.next_chunk_id == start.next_chunk_id + i);
                assert(chunks_views(chunks@)[i as int] == chunks@[i as int]@);
            }
            let c = chunks[i].clone();
            let _id = self.append_chunk_row(&c);
            proof {
                let cs = chunks_views(chunks@);
                assert(batch_rows(cs.take(i + 1), start.next_chunk_id) =~= batch_rows(
                    cs.take(i as int),
                    start.next_chunk_id,
                ).push(row_of(cs[i as int], (start.next_chunk_id + i) as u64)));
                assert(self@.chunks =~= start.chunks + batch_rows(
                    cs.take(i + 1),
                    start.next_chunk_id,
                ));
                assert(self@ =~= start.with_chunks(cs.take(i + 1)));
            }
            i = i + 1;
        }
        proof {
            assert(chunks_views(chunks@).take(m as int) =~= chunks_views(chunks@));
        }
        Ok(())
    }

    /// Reads one stored chunk back as a chunk value, decoding its embedding
    /// blob.
    fn read_chunk(c: &StoredChunk) -> (r: Chunks)
        ensures
            r@ == chunk_of_row(stored_view(*c)),
    {
        Chunks {
            id: Some(c.id),
            comic_number: c.comic_number,
            chunk_text: c.chunk_text.clone(),
            chunk_index: c.chunk_index,
            section_type: c.section_type,
            embedding: decode_embedding_blob(&c.embedding_blob),
        }
    }

    /// Orders chunks by `chunk_index` ascending; the result holds the same
    /// chunks.
    fn sort_chunks_by_index(v: Vec<Chunks>) -> (r: Vec<Chunks>)
        ensures
            chunks_views(r@).to_multiset() == chunks_views(v@).to_multiset(),
            forall|p: int, q: int|
                0 <= p < q < r@.len() ==> (#[trigger] r@[p]).chunk_index
                    <= (#[trigger] r@[q]).chunk_index,
    {
        broadcast use vstd::seq_lib::group_to_multiset_ensures;
        broadcast use vstd::multiset::group_multiset_axioms;

        let mut rest = v;
        let mut out: Vec<Chunks> = Vec::new();
        proof {
            assert(chunks_views(out@) =~= Seq::<ChunksView>::empty());
            assert(chunks_views(out@).to_multiset().add(chunks_views(rest@).to_multiset())
                =~= chunks_views(v@).to_multiset());
        }
        while rest.len() > 0
            invariant
                chunks_views(out@).to_multiset().add(chunks_views(rest@).to_multiset())
                    == chunks_views(v@).to_multiset(),
                forall|p: int, q: int|
                    0 <= p < q < out@.len() ==> (#[trigger] out@[p]).chunk_index
                        <= (#[trigger] out@[q]).chunk_index,
                forall|p: int, q: int|
                    0 <= p < out@.len() && 0 <= q < rest@.len() ==> (#[trigger] out@[p])
                        .chunk_index <= (#[trigger] rest@[q]).chunk_index,
            decreases rest@.len(),
        {
            let mut min_i: usize = 0;
            let mut j: usize = 1;
            while j < rest.len()
                invariant
                    rest@.len() > 0,
                    min_i < j <= rest@.len(),
                    forall|t: int|
                        0 <= t < j ==> rest@[min_i as int].chunk_index <= (#[trigger] rest@[t])
                            .chunk_index,
                decreases rest@.len() - j,
            {
                if rest[j].chunk_index < rest[min_i].chunk_index {
                    min_i = j;
                }
                j = j + 1;
            }
            let ghost pre_rest = rest@;
            let ghost pre_out = out@;
            let c = rest.remove(min_i);
            out.push(c);
            proof {
                broadcast use vstd::seq_lib::group_to_multiset_ensures;
                broadcast use vstd::multiset::group_multiset_axioms;

                lemma_chunks_views_remove(pre_rest, min_i as int);
                lemma_chunks_views_push(pre_out, c);
                let x = c@;
                let vs = chunks_views(pre_rest);
                assert(vs[min_i as int] == x);
                assert(vs.contains(x));
                assert(vs.to_multiset().count(x) > 0);
                assert(vs.remove(min_i as int).to_multiset() =~= vs.to_multiset().remove(x));
                assert(chunks_views(rest@) == vs.remove(min_i as int));
                assert(chunks_views(rest@).to_multiset() =~= vs.to_multiset().remove(x));
                assert(chunks_views(pre_out).push(x).to_multiset() =~= chunks_views(
                    pre_out,
                ).to_multiset().insert(x));
                assert(chunks_views(out@).to_multiset() =~= chunks_views(
                    pre_out,
                ).to_multiset().insert(x));
                assert(chunks_views(out@).to_multiset().add(chunks_views(rest@).to_multiset())
                    =~= chunks_views(pre_out).to_multiset().add(chunks_views(
                    pre_rest,
                ).to_multiset()));
                assert forall|p: int, q: int|
                    0 <= p < out@.len() && 0 <= q < rest@.len() implies (#[trigger] out@[p])
                    .chunk_index <= (#[trigger] rest@[q]).chunk_index by {
                    if q < min_i {
                        assert(rest@[q] == pre_rest[q]);
                    } else {
                        assert(rest@[q] == pre_rest[q + 1]);
                    }
                    if p == out@.len() - 1 {
                        assert(out@[p] == pre_rest[min_i as int]);
                    }
                }
            }
        }
        proof {
            assert(chunks_views(rest@) =~= Seq::<ChunksView>::empty());
            assert(chunks_views(rest@).to_multiset() =~= Multiset::<ChunksView>::empty());
            assert(chunks_views(out@).to_multiset() =~= chunks_views(v@).to_multiset());
        }
        out
    }

    /// The chunks of one comic, ordered by `chunk_index` ascending whatever
    /// the insertion order; the empty sequence, not an error, when the comic
    /// has no chunks or does not exist.
    pub fn get_chunks_for_comic(&self, comic_number: u64) -> (r: Result<Vec<Chunks>, DatabaseError>)
        requires
            self.wf(),
        ensures
            r matches Ok(v) && is_chunk_listing(self@, comic_number, chunks_views(v@)),
    {
        let n = self.chunks.len();
        let mut collected: Vec<Chunks> = Vec::new();
        let mut i: usize = 0;
        proof {
            assert(chunks_views(collected@) =~= Seq::<ChunksView>::empty());
            assert(self@.chunks.take(0).filter(same_comic(comic_number)) =~= Seq::<
                ChunkRow,
            >::empty()) by {
                reveal(Seq::filter);
                assert(self@.chunks.take(0) =~= Seq::<ChunkRow>::empty());
            }
            assert(chunks_views(collected@) =~= self@.chunks.take(0).filter(
                same_comic(comic_number),
            ).map_values(row_reader()));
        }
        while i < n
            invariant
                i <= n,
                n == self.chunks@.len(),
                self.wf(),
                chunks_views(collected@) == self@.chunks.take(i as int).filter(
                    same_comic(comic_number),
                ).map_values(row_reader()),
            decreases n - i,
        {
            let ghost pre = collected@;
            let ghost kept = self@.chunks.take(i as int).filter(same_comic(comic_number));
            proof {
                lemma_filter_take_succ(self@.chunks, i as int, same_comic(comic_number));
            }
            if self.chunks[i].comic_number == comic_number {
                let c = Self::read_chunk(&self.chunks[i]);
                collected.push(c);
                proof {
                    let row = self@.chunks[i as int];
                    assert(same_comic(comic_number)(row));
                    lemma_chunks_views_push(pre, c);
                    lemma_rows_read_push(kept, row);
                    assert(chunks_views(collected@) =~= self@.chunks.take(i + 1).filter(
                        same_comic(comic_number),
                    ).map_values(row_reader()));
                }
            } else {
                proof {
                    assert(!same_comic(comic_number)(self@.chunks[i as int]));
                }
            }
            i = i + 1;
        }
        proof {
            assert(self@.chunks.take(n as int) =~= self@.chunks);
        }
        let sorted = Self::sort_chunks_by_index(collected);
        proof {
            assert(chunks_views(sorted@).to_multiset() == self@.chunks_of(
                comic_number,
            ).map_values(row_reader()).to_multiset());
            assert forall|p: int, q: int|
                0 <= p < q < chunks_views(sorted@).len() implies (#[trigger] chunks_views(
                sorted@,
            )[p]).chunk_index <= (#[trigger] chunks_views(sorted@)[q]).chunk_index by {
                assert(chunks_views(sorted@)[p] == sorted@[p]@);
                assert(chunks_views(sorted@)[q] == sorted@[q]@);
            }
        }
        Ok(sorted)
    }

    /// How many chunks the store holds, over all comics.
    pub fn count_chunks(&self) -> (r: u64)
        ensures
            r == self@.chunks.len(),
    {
        self.chunks.len() as u64
    }

    /// How many chunks the store holds for one comic.
    pub fn count_chunks_for_comic(&self, comic_number: u64) -> (r: u64)
        requires
            self.wf(),
        ensures
            r == self@.chunks_of(comic_number).len(),
    {
        let n = self.chunks.len();
        let mut count: u64 = 0;
        let mut i: usize = 0;
        while i < n
            invariant
                i <= n,
                n == self.chunks@.len(),
                self.wf(),
                count == self@.chunks.take(i as int).filter(same_comic(comic_number)).len(),
                count <= i,
            decreases n - i,
        {
            proof {
                lemma_filter_take_succ(self@.chunks, i as int, same_comic(comic_number));
            }
            if self.chunks[i].comic_number == comic_number {
                proof {
                    assert(same_comic(comic_number)(self@.chunks[i as int]));
                }
                count = count + 1;
            } else {
                proof {
                    assert(!same_comic(comic_number)(self@.chunks[i as int]));
                }
            }
            i = i + 1;
        }
        proof {
            assert(self@.chunks.take(n as int) =~= self@.chunks);
        }
        count
    }
}

} // verus!
