//! The data model: comics, chunks, metadata entries, search results, and the
//! closed set of section types with its hand-maintained string mapping.
//!
//! Each executable type has a mathematical view (`@`) used by every contract:
//! strings become character sequences and embeddings become word sequences.

use vstd::prelude::*;

verus! {

/// A scraped comic: the document entity of the store.
#[derive(Debug)]
pub struct Comics {
    /// Externally assigned primary key; unique within a store.
    pub comic_number: u64,
    /// Display title.
    pub title: String,
    /// Source (wiki) page link.
    pub url: String,
    /// Canonical comic link.
    pub xkcd_url: String,
    /// Hover (alt) text, if the comic has one.
    pub hover_text: Option<String>,
    /// Wiki revision that produced the current record; advances on update.
    pub last_revision_id: u64,
    /// Timestamp of that revision, in the source's own format.
    pub last_revision_timestamp: String,
    /// When the record was first scraped (ISO-8601).
    pub scraped_at: String,
    /// When the record was last updated (ISO-8601).
    pub updated_at: String,
}

/// The mathematical value of a [`Comics`] record.
#[verifier::ext_equal]
pub struct ComicsView {
    pub comic_number: u64,
    pub title: Seq<char>,
    pub url: Seq<char>,
    pub xkcd_url: Seq<char>,
    pub hover_text: Option<Seq<char>>,
    pub last_revision_id: u64,
    pub last_revision_timestamp: Seq<char>,
    pub scraped_at: Seq<char>,
    pub updated_at: Seq<char>,
}

impl View for Comics {
    type V = ComicsView;

    open spec fn view(&self) -> ComicsView {
        ComicsView {
            comic_number: self.comic_number,
            title: self.title@,
            url: self.url@,
            xkcd_url: self.xkcd_url@,
            hover_text: match self.hover_text {
                Some(h) => Some(h@),
                None => None,
            },
            last_revision_id: self.last_revision_id,
            last_revision_timestamp: self.last_revision_timestamp@,
            scraped_at: self.scraped_at@,
            updated_at: self.updated_at@,
        }
    }
}

impl Clone for Comics {
    fn clone(&self) -> (res: Self)
        ensures
            res@ == self@,
    {
        Comics {
            comic_number: self.comic_number,
            title: self.title.clone(),
            url: self.url.clone(),
            xkcd_url: self.xkcd_url.clone(),
            hover_text: match &self.hover_text {
                Some(h) => Some(h.clone()),
                None => None,
            },
            last_revision_id: self.last_revision_id,
            last_revision_timestamp: self.last_revision_timestamp.clone(),
            scraped_at: self.scraped_at.clone(),
            updated_at: self.updated_at.clone(),
        }
    }
}

/// The type of section a chunk was taken from, with its persisted
/// snake-case string form maintained by hand in `name` and `parse`.
#[derive(Debug, Clone, Copy, PartialEq, Eq, Structural)]
pub enum SectionType {
    TitleHover,
    Explanation,
    Transcript,
    Trivia,
    Other,
}

impl SectionType {
    /// The persisted string form of this section type.
    pub open spec fn spec_name(self) -> Seq<char> {
        match self {
            SectionType::TitleHover => "title_hover"@,
            SectionType::Explanation => "explanation"@,
            SectionType::Transcript => "transcript"@,
            SectionType::Trivia => "trivia"@,
            SectionType::Other => "other"@,
        }
    }

    /// The section type a persisted string denotes, if any.
    pub open spec fn spec_parse(s: Seq<char>) -> Option<SectionType> {
        if s == "title_hover"@ {
            Some(SectionType::TitleHover)
        } else if s == "explanation"@ {
            Some(SectionType::Explanation)
        } else if s == "transcript"@ {
            Some(SectionType::Transcript)
        } else if s == "trivia"@ {
            Some(SectionType::Trivia)
        } else if s == "other"@ {
            Some(SectionType::Other)
        } else {
            None
        }
    }

    /// Converts this section type to its persisted string form.
    pub fn name(&self) -> (r: String)
        ensures
            r@ == self.spec_name(),
    {
        match self {
            SectionType::TitleHover => "title_hover".to_owned(),
            SectionType::Explanation => "explanation".to_owned(),
            SectionType::Transcript => "transcript".to_owned(),
            SectionType::Trivia => "trivia".to_owned(),
            SectionType::Other => "other".to_owned(),
        }
    }

    /// Parses a persisted string form back into a section type; `None` for
    /// any string that is not one of the five known names.
    pub fn parse(s: &str) -> (r: Option<SectionType>)
        ensures
            r == SectionType::spec_parse(s@),
    {
        let owned = s.to_owned();
        if owned == "title_hover".to_owned() {
            Some(SectionType::TitleHover)
        } else if owned == "explanation".to_owned() {
            Some(SectionType::Explanation)
        } else if owned == "transcript".to_owned() {
            Some(SectionType::Transcript)
        } else if owned == "trivia".to_owned() {
            Some(SectionType::Trivia)
        } else if owned == "other".to_owned() {
            Some(SectionType::Other)
        } else {
            None
        }
    }
}

/// Converting a section type to its string form and parsing it back yields
/// the same section type: the bidirectional mapping is lossless.
pub proof fn lemma_section_name_roundtrip(s: SectionType)
    ensures
        SectionType::spec_parse(s.spec_name()) == Some(s),
{
    reveal_strlit("title_hover");
    reveal_strlit("explanation");
    reveal_strlit("transcript");
    reveal_strlit("trivia");
    reveal_strlit("other");
    // The five names differ pairwise: all lengths differ except for
    // "title_hover" and "explanation", which differ at their first position.
    assert("title_hover"@.len() == 11);
    assert("explanation"@.len() == 11);
    assert("transcript"@.len() == 10);
    assert("trivia"@.len() == 6);
    assert("other"@.len() == 5);
    assert("explanation"@[0] != "title_hover"@[0]);
}

/// A fragment of a comic's text, carrying an embedding.
///
/// The embedding holds the 32-bit IEEE-754 bit patterns of the vector's
/// components; its length must equal the configured dimension before the
/// chunk can reach storage.
#[derive(Debug)]
pub struct Chunks {
    /// Storage-assigned identifier; `None` before insertion.
    pub id: Option<u64>,
    /// The owning comic; must exist at insert time.
    pub comic_number: u64,
    /// The fragment's text.
    pub chunk_text: String,
    /// Ordering key within the owning comic; not globally unique.
    pub chunk_index: u64,
    /// Which section the fragment was taken from, if known.
    pub section_type: Option<SectionType>,
    /// The embedding vector, one 32-bit word per component.
    pub embedding: Vec<u32>,
}

/// The mathematical value of a [`Chunks`] record.
#[verifier::ext_equal]
pub struct ChunksView {
    pub id: Option<u64>,
    pub comic_number: u64,
    pub chunk_text: Seq<char>,
    pub chunk_index: u64,
    pub section_type: Option<SectionType>,
    pub embedding: Seq<u32>,
}

impl View for Chunks {
    type V = ChunksView;

    open spec fn view(&self) -> ChunksView {
        ChunksView {
            id: self.id,
            comic_number: self.comic_number,
            chunk_text: self.chunk_text@,
            chunk_index: self.chunk_index,
            section_type: self.section_type,
            embedding: self.embedding@,
        }
    }
}

/// Copies a word vector element by element.
fn copy_words(v: &Vec<u32>) -> (r: Vec<u32>)
    ensures
        r@ == v@,
{
    let mut r: Vec<u32> = Vec::new();
    let mut i: usize = 0;
    while i < v.len()
        invariant
            i <= v@.len(),
            r@ =~= v@.take(i as int),
        decreases v@.len() - i,
    {
        r.push(v[i]);
        i = i + 1;
    }
    assert(r@ =~= v@);
    r
}

impl Clone for Chunks {
    fn clone(&self) -> (res: Self)
        ensures
            res@ == self@,
    {
        Chunks {
            id: self.id,
            comic_number: self.comic_number,
            chunk_text: self.chunk_text.clone(),
            chunk_index: self.chunk_index,
            section_type: self.section_type,
            embedding: copy_words(&self.embedding),
        }
    }
}

/// A process-wide key/value entry; the key is unique within a store.
#[derive(Debug)]
pub struct Metadata {
    pub key: String,
    pub value: String,
}

impl Clone for Metadata {
    fn clone(&self) -> (res: Self)
        ensures
            res.key@ == self.key@,
            res.value@ == self.value@,
    {
        Metadata { key: self.key.clone(), value: self.value.clone() }
    }
}

/// One hit of a vector similarity search: a chunk joined with the display
/// fields of its owning comic. Not persisted; built per query.
#[derive(Debug)]
pub struct ChunkSearchResult {
    /// The unique identifier of the chunk.
    pub chunk_id: u64,
    /// The comic number the chunk belongs to.
    pub comic_number: u64,
    /// The text content of the chunk.
    pub chunk_text: String,
    /// The persisted string form of the chunk's section type, if any.
    pub section_type: Option<String>,
    /// The title of the owning comic.
    pub comic_title: String,
    /// The canonical link of the owning comic.
    pub xkcd_url: String,
    /// The hover (alt) text of the owning comic, if any.
    pub hover_text: Option<String>,
}

/// The mathematical value of a [`ChunkSearchResult`].
#[verifier::ext_equal]
pub struct SearchResultView {
    pub chunk_id: u64,
    pub comic_number: u64,
    pub chunk_text: Seq<char>,
    pub section_type: Option<Seq<char>>,
    pub comic_title: Seq<char>,
    pub xkcd_url: Seq<char>,
    pub hover_text: Option<Seq<char>>,
}

impl View for ChunkSearchResult {
    type V = SearchResultView;

    open spec fn view(&self) -> SearchResultView {
        SearchResultView {
            chunk_id: self.chunk_id,
            comic_number: self.comic_number,
            chunk_text: self.chunk_text@,
            section_type: match self.section_type {
                Some(s) => Some(s@),
                None => None,
            },
            comic_title: self.comic_title@,
            xkcd_url: self.xkcd_url@,
            hover_text: match self.hover_text {
                Some(h) => Some(h@),
                None => None,
            },
        }
    }
}

impl Clone for ChunkSearchResult {
    fn clone(&self) -> (res: Self)
        ensures
            res@ == self@,
    {
        ChunkSearchResult {
            chunk_id: self.chunk_id,
            comic_number: self.comic_number,
            chunk_text: self.chunk_text.clone(),
            section_type: match &self.section_type {
                Some(s) => Some(s.clone()),
                None => None,
            },
            comic_title: self.comic_title.clone(),
            xkcd_url: self.xkcd_url.clone(),
            hover_text: match &self.hover_text {
                Some(h) => Some(h.clone()),
                None => None,
            },
        }
    }
}

} // verus!
