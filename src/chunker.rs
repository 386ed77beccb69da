//! Splitting documents into chunks along markdown structure, for embedding.
use vstd::prelude::*;
use crate::text::{chars_of, find_first, first_from, slice_exec, string_of};

verus! {

/// Settings of the chunker.
#[derive(Debug, Clone, Copy)]
pub struct ChunkerConfig {
    /// Target chunk size in characters.
    pub chunk_size: usize,
}

impl ChunkerConfig {
    /// The default target of a thousand characters.
    pub fn default_config() -> (r: ChunkerConfig)
        ensures
            r.chunk_size == 1000,
    {
        ChunkerConfig { chunk_size: 1000 }
    }
}

/// A chunk with its place in the document, in characters.
#[derive(Debug)]
pub struct Chunk {
    pub text: String,
    pub start_char: usize,
    pub end_char: usize,
    pub chunk_index: usize,
}

/// A chunk with the document it came from.
#[derive(Debug)]
pub struct ChunkWithMeta {
    pub text: String,
    pub source_url: String,
    pub source_title: String,
    pub chunk_index: usize,
    pub total_chunks: usize,
}

/// The chunks that the markdown splitter makes of a text at a capacity, as
/// (character offset, chunk text) pairs.
pub uninterp spec fn markdown_pieces(text: Seq<char>, capacity: nat) -> Seq<(int, Seq<char>)>;

/// Relies on `text_splitter::MarkdownSplitter::chunk_char_indices`: the chunks
/// of `content` at the given capacity, each with its character offset, in
/// order; each chunk is the text found at its offset.
#[verifier::external_body]
fn split_markdown(content: &str, capacity: usize) -> (r: Vec<(usize, String)>)
    requires
        capacity > 0,
    ensures
        r@.map_values(|p: (usize, String)| (p.0 as int, p.1@)) == markdown_pieces(
            content@,
            capacity as nat,
        ),
        forall|i: int|
            0 <= i < r@.len() ==> #[trigger] r@[i].0 + r@[i].1@.len() <= content@.len()
                && content@.subrange(r@[i].0 as int, r@[i].0 + r@[i].1@.len()) == r@[i].1@,
{
    let splitter = text_splitter::MarkdownSplitter::<text_splitter::Characters>::new(capacity);
    splitter.chunk_char_indices(content).map(|c| (c.char_offset, c.chunk.to_string())).collect()
}

/// The chunks of a text, numbered in order, with their character spans.
pub open spec fn chunks_of(content: Seq<char>, capacity: nat, r: Seq<Chunk>) -> bool {
    let pieces = markdown_pieces(content, capacity);
    &&& r.len() == pieces.len()
    &&& forall|i: int|
        0 <= i < r.len() ==> {
            &&& (#[trigger] r[i]).text@ == pieces[i].1
            &&& r[i].start_char == pieces[i].0
            &&& r[i].end_char == r[i].start_char + r[i].text@.len()
            &&& r[i].chunk_index == i
            &&& content.subrange(r[i].start_char as int, r[i].end_char as int) == r[i].text@
        }
}

/// Splits documents into chunks of about a target size, preferring
/// headings, paragraphs and sentences as boundaries.
#[derive(Debug)]
pub struct DocumentChunker {
    config: ChunkerConfig,
}

impl DocumentChunker {
    /// The target chunk size.
    pub closed spec fn size(&self) -> nat {
        self.config.chunk_size as nat
    }

    /// A chunker with the default target of a thousand characters.
    pub fn new() -> (r: DocumentChunker)
        ensures
            r.size() == 1000,
    {
        DocumentChunker::with_config(ChunkerConfig::default_config())
    }

    /// A chunker with the given target size.
    pub fn with_config(config: ChunkerConfig) -> (r: DocumentChunker)
        requires
            config.chunk_size > 0,
        ensures
            r.size() == config.chunk_size,
    {
        DocumentChunker { config }
    }

    /// The target chunk size.
    pub fn chunk_size(&self) -> (r: usize)
        ensures
            r == self.size(),
    {
        self.config.chunk_size
    }

    /// Splits markdown into chunks.
    pub fn chunk_markdown(&self, content: &str) -> (r: Vec<Chunk>)
        requires
            self.size() > 0,
        ensures
            chunks_of(content@, self.size(), r@),
    {
        let pieces = split_markdown(content, self.config.chunk_size);
        let ghost pv = pieces@.map_values(|p: (usize, String)| (p.0 as int, p.1@));
        let total_len: usize = chars_of(content).len();
        let mut out: Vec<Chunk> = Vec::new();
        let mut i: usize = 0;
        while i < pieces.len()
            invariant
                i <= pieces.len(),
                total_len == content@.len(),
                pv == pieces@.map_values(|p: (usize, String)| (p.0 as int, p.1@)),
                pv == markdown_pieces(content@, self.size()),
                forall|k: int|
                    0 <= k < pieces@.len() ==> #[trigger] pieces@[k].0 + pieces@[k].1@.len()
                        <= content@.len() && content@.subrange(
                        pieces@[k].0 as int,
                        pieces@[k].0 + pieces@[k].1@.len(),
                    ) == pieces@[k].1@,
                out@.len() == i,
                forall|k: int|
                    0 <= k < i ==> {
                        &&& (#[trigger] out@[k]).text@ == pv[k].1
                        &&& out@[k].start_char == pv[k].0
                        &&& out@[k].end_char == out@[k].start_char + out@[k].text@.len()
                        &&& out@[k].chunk_index == k
                        &&& content@.subrange(out@[k].start_char as int, out@[k].end_char as int)
                            == out@[k].text@
                    },
            decreases pieces.len() - i,
        {
            let start = pieces[i].0;
            let text = pieces[i].1.clone();
            let n = chars_of(text.as_str()).len();
            assert(start + text@.len() <= content@.len());
            let c = Chunk { text, start_char: start, end_char: start + n, chunk_index: i };
            out.push(c);
            i += 1;
        }
        out
    }

    /// Splits plain text into chunks; paragraphs and sentences are kept
    /// together as in markdown.
    pub fn chunk_text(&self, content: &str) -> (r: Vec<Chunk>)
        requires
            self.size() > 0,
        ensures
            chunks_of(content@, self.size(), r@),
    {
        self.chunk_markdown(content)
    }

    /// Splits markdown into chunks that carry their document's url and title
    /// and the number of chunks.
    pub fn chunk_with_metadata(&self, content: &str, source_url: &str, source_title: &str) -> (r: Vec<
        ChunkWithMeta,
    >)
        requires
            self.size() > 0,
        ensures
            r@.len() == markdown_pieces(content@, self.size()).len(),
            forall|i: int|
                0 <= i < r@.len() ==> {
                    &&& (#[trigger] r@[i]).text@ == markdown_pieces(content@, self.size())[i].1
                    &&& r@[i].source_url@ == source_url@
                    &&& r@[i].source_title@ == source_title@
                    &&& r@[i].chunk_index == i
                    &&& r@[i].total_chunks == r@.len()
                },
    {
        let chunks = self.chunk_markdown(content);
        let total = chunks.len();
        let mut out: Vec<ChunkWithMeta> = Vec::new();
        let mut i: usize = 0;
        while i < chunks.len()
            invariant
                i <= chunks.len(),
                total == chunks@.len(),
                chunks_of(content@, self.size(), chunks@),
                out@.len() == i,
                forall|k: int|
                    0 <= k < i ==> {
                        &&& (#[trigger] out@[k]).text@ == markdown_pieces(content@, self.size())[k].1
                        &&& out@[k].source_url@ == source_url@
                        &&& out@[k].source_title@ == source_title@
                        &&& out@[k].chunk_index == k
                        &&& out@[k].total_chunks == total
                    },
            decreases chunks.len() - i,
        {
            assert(chunks@[i as int].text@ == markdown_pieces(content@, self.size())[i as int].1);
            let m = ChunkWithMeta {
                text: chunks[i].text.clone(),
                source_url: string_of(&chars_of(source_url)),
                source_title: string_of(&chars_of(source_title)),
                chunk_index: chunks[i].chunk_index,
                total_chunks: total,
            };
            out.push(m);
            i += 1;
        }
        out
    }
}


/// `s` cut at each occurrence of `sep`, left to right, for at most `fuel` cuts.
pub open spec fn split_on(s: Seq<char>, sep: Seq<char>, fuel: nat) -> Seq<Seq<char>>
    decreases fuel,
{
    if fuel == 0 {
        seq![s]
    } else {
        match first_from(s, sep, 0) {
            Some(i) => seq![s.subrange(0, i)] + split_on(
                s.subrange(i + sep.len(), s.len() as int),
                sep,
                (fuel - 1) as nat,
            ),
            None => seq![s],
        }
    }
}

/// Paragraphs shorter than this many characters are not sent to extraction.
pub const MIN_PARAGRAPH_CHARS: usize = 50;

/// At most this many paragraphs of a document are sent to extraction.
pub const MAX_PARAGRAPHS: usize = 20;

/// The paragraphs of a document that go through entity extraction: the
/// blank-line separated parts of at least fifty characters, the first twenty
/// of them.
pub open spec fn paragraphs_for_extraction(content: Seq<char>) -> Seq<Seq<char>> {
    let all = split_on(content, "\n\n"@, content.len() + 1).filter(
        |p: Seq<char>| p.len() >= MIN_PARAGRAPH_CHARS,
    );
    if all.len() <= MAX_PARAGRAPHS {
        all
    } else {
        all.subrange(0, MAX_PARAGRAPHS as int)
    }
}

/// Picks the paragraphs of a document that go through entity extraction.
pub fn extraction_paragraphs(content: &str) -> (r: Vec<String>)
    ensures
        r.deep_view() == paragraphs_for_extraction(content@),
{
    let sep = chars_of("\n\n");
    proof {
        reveal_strlit("\n\n");
    }
    let mut rest = chars_of(content);
    let ghost whole = split_on(content@, sep@, content@.len() + 1);
    let mut pieces: Vec<Vec<char>> = Vec::new();
    let mut fuel: u128 = rest.len() as u128 + 1;
    assert(pieces@.map_values(|v: Vec<char>| v@) + split_on(rest@, sep@, fuel as nat) =~= whole);
    loop
        invariant_except_break
            pieces@.map_values(|v: Vec<char>| v@) + split_on(rest@, sep@, fuel as nat) == whole,
        invariant
            sep@ == "\n\n"@,
            sep@.len() == 2,
        ensures
            pieces@.map_values(|v: Vec<char>| v@) == whole,
        decreases fuel,
    {
        let ghost before = pieces@.map_values(|v: Vec<char>| v@);
        if fuel == 0 {
            pieces.push(rest);
            assert(pieces@.map_values(|v: Vec<char>| v@) =~= before + split_on(rest@, sep@, 0));
            break;
        }
        match find_first(&rest, &sep, 0) {
            Some(i) => {
                let head = slice_exec(&rest, 0, i);
                let n: usize = rest.len();
                let tail = slice_exec(&rest, i + 2, n);
                let ghost r0 = rest@;
                pieces.push(head);
                rest = tail;
                fuel -= 1;
                assert(pieces@.map_values(|v: Vec<char>| v@) + split_on(rest@, sep@, fuel as nat)
                    =~= before + split_on(r0, sep@, (fuel + 1) as nat));
            },
            None => {
                let ghost r0 = rest@;
                pieces.push(rest);
                assert(pieces@.map_values(|v: Vec<char>| v@) =~= before + split_on(r0, sep@, fuel as nat));
                break;
            },
        }
    }
    let ghost pred = |p: Seq<char>| p.len() >= MIN_PARAGRAPH_CHARS;
    let mut out: Vec<String> = Vec::new();
    let mut j: usize = 0;
    assert(whole.subrange(0, 0).filter(pred) =~= Seq::<Seq<char>>::empty()) by {
        reveal(Seq::filter);
    }
    while j < pieces.len()
        invariant
            j <= pieces.len(),
            pieces@.map_values(|v: Vec<char>| v@) == whole,
            pred == (|p: Seq<char>| p.len() >= MIN_PARAGRAPH_CHARS),
            out.deep_view() == whole.subrange(0, j as int).filter(pred),
        decreases pieces.len() - j,
    {
        proof {
            crate::store::lemma_filter_step(whole, j as int, pred);
        }
        assert(pieces@[j as int]@ == whole[j as int]);
        if pieces[j].len() >= MIN_PARAGRAPH_CHARS {
            let ghost prev = out.deep_view();
            let t = string_of(&pieces[j]);
            out.push(t);
            assert(out.deep_view() =~= prev.push(whole[j as int]));
        }
        j += 1;
    }
    assert(whole.subrange(0, pieces.len() as int) =~= whole);
    let ghost all = out.deep_view();
    out.truncate(MAX_PARAGRAPHS);
    assert(out.deep_view() =~= paragraphs_for_extraction(content@)) by {
        assert(all == paragraphs_for_extraction(content@) || all.len() > MAX_PARAGRAPHS);
    }
    out
}

} // verus!
