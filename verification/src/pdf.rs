//! PDF provider: text extraction (through the decoder crate) followed by
//! sliding-window chunking.
use crate::chunks::{build_window_chunks, lemma_window_chunk_ids, window_chunks_of};
use crate::models::{chunks_view, meta_view, result_wf, ChunkV, ContentChunk, ContentMetadata,
    ContentProcessingResult, ContentType, MetadataV, ProcessError, opt_string_view};
use crate::sliding::{chunk_text, windows};
use vstd::prelude::*;

verus! {

#[derive(Debug, Clone, Copy, PartialEq, Eq, Structural)]
pub struct PdfProvider;

// The PDF text extractor (pdf_extract::extract_text_from_mem) can abort
// the process on some malformed documents, so its call cannot stand inside
// the verified library: the caller runs it, catches an abort, and hands
// the outcome in as a value.
/// The chunks of a PDF document with the given extracted text.
pub open spec fn pdf_chunks_of(text: Seq<char>) -> Seq<ChunkV> {
    window_chunks_of(
        text,
        1000,
        200,
        "pdf_chunk_"@,
        "# PDF Document Content\n\n"@,
        "## Section "@,
        "pdf"@,
        "page_reference"@,
        "Page ~"@,
    )
}

/// The metadata record of a PDF file.
pub open spec fn pdf_metadata_v(file_name: Option<Seq<char>>, file_size: u64) -> MetadataV {
    MetadataV {
        content_type: ContentType::Pdf,
        file_name: file_name,
        file_size: Some(file_size),
        created_at: None,
        modified_at: None,
        author: None,
        title: None,
        language: None,
        additional: Seq::empty(),
    }
}

impl PdfProvider {
    pub fn new() -> (r: Self)
        ensures
            r == (PdfProvider {}),
    {
        PdfProvider
    }

    /// Sliding-window chunking of already-extracted text.
    pub fn chunk_text(&self, text: &str, chunk_size: usize, overlap: usize) -> (r: Vec<String>)
        requires
            overlap < chunk_size,
        ensures
            r.deep_view() == windows(text@, chunk_size as int, overlap as int),
    {
        chunk_text(text, chunk_size, overlap)
    }

    /// Chunks the extracted text of a PDF document.
    pub fn to_markdown_chunks(&self, text: &str) -> (r: Vec<ContentChunk>)
        ensures
            chunks_view(r@) == pdf_chunks_of(text@),
    {
        build_window_chunks(
            text,
            1000,
            200,
            "pdf_chunk_",
            "# PDF Document Content\n\n",
            "## Section ",
            "pdf",
            "page_reference",
            "Page ~",
        )
    }

    /// The metadata record for a PDF file; content decoding plays no part
    /// in it.
    pub fn to_metadata(&self, file_name: Option<String>, file_size: u64) -> (r: ContentMetadata)
        ensures
            r@ == pdf_metadata_v(opt_string_view(file_name), file_size),
    {
        let r = ContentMetadata {
            content_type: ContentType::Pdf,
            file_name,
            file_size: Some(file_size),
            created_at: None,
            modified_at: None,
            author: None,
            title: None,
            language: None,
            additional: Vec::new(),
        };
        proof {
            assert(meta_view(r.additional) =~= Seq::<(Seq<char>, crate::models::JsonV)>::empty());
        }
        r
    }

    /// Processes one PDF file, given the text extractor's outcome on it:
    /// on extracted text, a successful result with the window chunks and
    /// the file metadata; on an extraction failure, a failed result
    /// carrying the decode error, with no chunks.
    pub fn process_content(
        &self,
        decoded: Result<String, String>,
        file_name: Option<String>,
        file_size: u64,
    ) -> (r: ContentProcessingResult)
        ensures
            result_wf(r@),
            r@.metadata == pdf_metadata_v(opt_string_view(file_name), file_size),
            decoded matches Ok(t) ==> r@.success && r@.chunks == pdf_chunks_of(t@) && r@.error
                is None,
            decoded matches Err(e) ==> !r@.success && r@.error == Some("decode error: "@ + e@)
                && r@.chunks == Seq::<ChunkV>::empty(),
    {
        let metadata = self.to_metadata(file_name, file_size);
        match decoded {
            Ok(text) => {
                let chunks = self.to_markdown_chunks(text.as_str());
                let r = ContentProcessingResult { success: true, chunks, metadata, error: None };
                proof {
                    let cs = r@.chunks;
                    assert forall|i: int, j: int| 0 <= i < j < cs.len() implies cs[i].id
                        != cs[j].id by {
                        lemma_window_chunk_ids("pdf_chunk_"@, i as nat, j as nat);
                    }
                    assert forall|i: int| 0 <= i < cs.len() implies #[trigger] cs[i].id.len()
                        > 0 by {
                        lemma_window_chunk_ids("pdf_chunk_"@, i as nat, (i + 1) as nat);
                    }
                }
                r
            },
            Err(e) => {
                let msg = ProcessError::DecodeError(e).message();
                let r = ContentProcessingResult {
                    success: false,
                    chunks: Vec::new(),
                    metadata,
                    error: Some(msg),
                };
                proof {
                    assert(chunks_view(r.chunks@) =~= Seq::<ChunkV>::empty());
                }
                r
            },
        }
    }
}

} // verus!
