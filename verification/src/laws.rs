//! Laws of the store: properties that span several operations, stated over
//! the mathematical model and proved once for every store.

use vstd::prelude::*;

use crate::EMBEDDING_DIM;
use crate::models::ChunksView;
use crate::store::{StoreModel, ChunkRow, chunk_of_row, row_of, row_reader, is_chunk_listing,
    same_comic, other_comic};

verus! {

/// Round trip: inserting a chunk with a valid embedding and then retrieving
/// its comic's chunks yields, among them, a chunk equal to the inserted one
/// under its new identifier — the embedding word for word, so the decoded
/// vector matches the original exactly.
pub proof fn lemma_insert_then_retrieve_roundtrip(
    m: StoreModel,
    c: ChunksView,
    out: Seq<ChunksView>,
)
    requires
        m.inv(),
        c.embedding.len() == EMBEDDING_DIM,
        m.has_comic(c.comic_number),
        m.next_chunk_id < u64::MAX,
        is_chunk_listing(m.with_chunk(c), c.comic_number, out),
    ensures
        exists|i: int|
            0 <= i < out.len() && #[trigger] out[i] == chunk_of_row(row_of(c, m.next_chunk_id)),
{
    broadcast use vstd::seq_lib::group_to_multiset_ensures;
    broadcast use vstd::multiset::group_multiset_axioms;

    let m2 = m.with_chunk(c);
    let row = row_of(c, m.next_chunk_id);
    let read = chunk_of_row(row);
    assert(same_comic(c.comic_number)(row));
    m.chunks.lemma_filter_push(row, same_comic(c.comic_number));
    assert(m2.chunks_of(c.comic_number) == m.chunks_of(c.comic_number).push(row));
    let listed = m2.chunks_of(c.comic_number).map_values(row_reader());
    assert(listed =~= m.chunks_of(c.comic_number).map_values(row_reader()).push(read));
    assert(listed.to_multiset().contains(read));
    assert(out.to_multiset().contains(read));
    assert(out.contains(read));
    let i = choose|i: int| 0 <= i < out.len() && out[i] == read;
    assert(out[i] == read);
}

/// Cascade: after a comic is deleted, the store holds no chunk of it; a
/// count of its chunks is zero.
pub proof fn lemma_delete_comic_cascades(m: StoreModel, n: u64)
    ensures
        m.without_comic(n).chunks_of(n) =~= Seq::<ChunkRow>::empty(),
        m.without_comic(n).chunks_of(n).len() == 0,
{
    broadcast use Seq::lemma_filter_pred;

    let kept = m.chunks.filter(other_comic(n));
    assert(forall|i: int|
        0 <= i < kept.len() ==> !same_comic(n)(#[trigger] kept[i]));
    assert(kept.all(|x: ChunkRow| !same_comic(n)(x)));
    kept.lemma_all_neg_filter_empty(same_comic(n));
    assert(m.without_comic(n).chunks_of(n).len() == 0);
    assert(m.without_comic(n).chunks_of(n) =~= Seq::<ChunkRow>::empty());
}

/// Mapping two sequences that hold the same elements yields sequences that
/// hold the same images.
proof fn lemma_map_multiset_eq<A, B>(s: Seq<A>, t: Seq<A>, f: spec_fn(A) -> B)
    requires
        s.to_multiset() == t.to_multiset(),
    ensures
        s.map_values(f).to_multiset() == t.map_values(f).to_multiset(),
    decreases s.len(),
{
    broadcast use vstd::seq_lib::group_to_multiset_ensures;
    broadcast use vstd::multiset::group_multiset_axioms;

    if s.len() == 0 {
        assert(s.to_multiset().len() == s.len());
        assert(t.to_multiset().len() == t.len());
        assert(t.len() == 0);
        assert(s.map_values(f) =~= Seq::<B>::empty());
        assert(t.map_values(f) =~= Seq::<B>::empty());
        assert(s.map_values(f).to_multiset() =~= t.map_values(f).to_multiset());
    } else {
        let x = s.last();
        let s2 = s.drop_last();
        assert(s =~= s2.push(x));
        assert(s.to_multiset() =~= s2.to_multiset().insert(x));
        assert(s.to_multiset().contains(x));
        assert(t.to_multiset().contains(x));
        assert(t.contains(x));
        let j = choose|j: int| 0 <= j < t.len() && t[j] == x;
        let t2 = t.remove(j);
        assert(t2.to_multiset() =~= t.to_multiset().remove(x));
        assert(s2.to_multiset() =~= s.to_multiset().remove(x));
        lemma_map_multiset_eq(s2, t2, f);
        assert(s.map_values(f) =~= s2.map_values(f).push(f(x)));
        assert(s.map_values(f).to_multiset() =~= s2.map_values(f).to_multiset().insert(f(x)));
        assert(t2.map_values(f) =~= t.map_values(f).remove(j));
        assert(t.map_values(f)[j] == f(x));
        assert(t.map_values(f).remove(j).to_multiset() =~= t.map_values(
            f,
        ).to_multiset().remove(f(x)));
        assert(t.map_values(f).contains(f(x))) by {
            assert(t.map_values(f)[j] == f(x));
        }
        assert(t.map_values(f).to_multiset().contains(f(x)));
        assert(t.map_values(f).to_multiset() =~= t2.map_values(f).to_multiset().insert(f(x)));
        assert(s.map_values(f).to_multiset() =~= t.map_values(f).to_multiset());
    }
}

/// Ordered retrieval does not depend on insertion order: any two correct
/// listings of one comic's chunks — whatever order its rows were inserted
/// or scanned in — agree position by position on their `chunk_index`
/// values; ties in the index are the only freedom left.
pub proof fn lemma_chunk_listing_order_is_canonical(
    m: StoreModel,
    n: u64,
    out1: Seq<ChunksView>,
    out2: Seq<ChunksView>,
)
    requires
        is_chunk_listing(m, n, out1),
        is_chunk_listing(m, n, out2),
    ensures
        out1.len() == out2.len(),
        forall|i: int|
            0 <= i < out1.len() ==> (#[trigger] out1[i]).chunk_index == out2[i].chunk_index,
{
    broadcast use vstd::seq_lib::group_to_multiset_ensures;
    broadcast use vstd::multiset::group_multiset_axioms;

    let key = |c: ChunksView| c.chunk_index;
    let leq = |a: u64, b: u64| a <= b;
    lemma_map_multiset_eq(out1, out2, key);
    let k1 = out1.map_values(key);
    let k2 = out2.map_values(key);
    assert(out1.len() == out1.to_multiset().len());
    assert(out2.len() == out2.to_multiset().len());
    assert(vstd::relations::total_ordering(leq)) by {
        assert(vstd::relations::reflexive(leq)) by {
            assert(forall|a: u64| #[trigger] leq(a, a));
        }
        assert(vstd::relations::antisymmetric(leq)) by {
            assert(forall|a: u64, b: u64| #[trigger] leq(a, b) && #[trigger] leq(b, a) ==> a == b);
        }
        assert(vstd::relations::transitive(leq)) by {
            assert(forall|a: u64, b: u64, c: u64|
                #[trigger] leq(a, b) && #[trigger] leq(b, c) ==> leq(a, c));
        }
        assert(vstd::relations::strongly_connected(leq)) by {
            assert(forall|a: u64, b: u64| #[trigger] leq(a, b) || #[trigger] leq(b, a));
        }
    }
    assert(vstd::relations::sorted_by(k1, leq)) by {
        assert forall|i: int, j: int| 0 <= i < j < k1.len() implies #[trigger] leq(k1[i], k1[j]) by {
            assert(out1[i].chunk_index <= out1[j].chunk_index);
        }
    }
    assert(vstd::relations::sorted_by(k2, leq)) by {
        assert forall|i: int, j: int| 0 <= i < j < k2.len() implies #[trigger] leq(k2[i], k2[j]) by {
            assert(out2[i].chunk_index <= out2[j].chunk_index);
        }
    }
    vstd::seq_lib::lemma_sorted_unique(k1, k2, leq);
    assert(k1 =~= k2);
    assert forall|i: int| 0 <= i < out1.len() implies (#[trigger] out1[i]).chunk_index
        == out2[i].chunk_index by {
        assert(k1[i] == out1[i].chunk_index);
        assert(k2[i] == out2[i].chunk_index);
    }
}

/// Recording a metadata value twice leaves what one recording leaves: the
/// upsert is idempotent.
pub proof fn lemma_set_metadata_idempotent(
    meta: Map<Seq<char>, Seq<char>>,
    key: Seq<char>,
    value: Seq<char>,
)
    ensures
        meta.insert(key, value).insert(key, value) == meta.insert(key, value),
{
    assert(meta.insert(key, value).insert(key, value) =~= meta.insert(key, value));
}

} // verus!
