//! Document (DOCX) provider: the decoder yields the document's block
//! structure; paragraph texts are assembled, empty paragraphs skipped,
//! tables replaced by a placeholder, and the result chunked by sliding
//! window.
use crate::chunks::{build_window_chunks, lemma_window_chunk_ids, window_chunks_of};
use crate::models::{chunks_view, meta_view, result_wf, ChunkV, ContentChunk, ContentMetadata,
    ContentProcessingResult, ContentType, MetadataV, ProcessError, opt_string_view};
use crate::sliding::{chunk_text, windows};
use crate::strutil::{trim_spec, trim_str};
use vstd::prelude::*;
use vstd::string::*;

verus! {

#[derive(Debug, Clone, Copy, PartialEq, Eq, Structural)]
pub struct DocumentProvider;

/// One top-level block of a decoded document: a paragraph (its runs, each a
/// list of text nodes), a table, or anything else.
pub enum DocBlock {
    Paragraph(Vec<Vec<String>>),
    Table,
    Other,
}

/// The model of a `DocBlock`.
pub enum DocBlockV {
    Paragraph(Seq<Seq<Seq<char>>>),
    Table,
    Other,
}

pub open spec fn block_view(b: DocBlock) -> DocBlockV {
    match b {
        DocBlock::Paragraph(v) => DocBlockV::Paragraph(v.deep_view()),
        DocBlock::Table => DocBlockV::Table,
        DocBlock::Other => DocBlockV::Other,
    }
}

pub open spec fn blocks_view(s: Seq<DocBlock>) -> Seq<DocBlockV> {
    Seq::new(s.len(), |i: int| block_view(s[i]))
}

// The DOCX reader (docx_rs::read_docx) can abort the process on some
// corrupt archives, so its call cannot stand inside the verified library:
// the caller runs it, catches an abort, maps the tree to blocks, and hands
// the outcome in as a value.
/// The text nodes of one run, concatenated.
pub open spec fn cat_texts(run: Seq<Seq<char>>) -> Seq<char>
    decreases run.len(),
{
    if run.len() == 0 {
        Seq::empty()
    } else {
        run[0] + cat_texts(run.subrange(1, run.len() as int))
    }
}

/// The text of one paragraph: all its runs' texts, concatenated.
pub open spec fn para_text(children: Seq<Seq<Seq<char>>>) -> Seq<char>
    decreases children.len(),
{
    if children.len() == 0 {
        Seq::empty()
    } else {
        cat_texts(children[0]) + para_text(children.subrange(1, children.len() as int))
    }
}

/// What one block contributes to the document text: a paragraph whose text
/// is not all whitespace, followed by a blank line; a placeholder for a
/// table; nothing otherwise.
pub open spec fn block_text(b: DocBlockV) -> Seq<char> {
    match b {
        DocBlockV::Paragraph(ch) => if trim_spec(para_text(ch)).len() > 0 {
            para_text(ch) + "\n\n"@
        } else {
            Seq::empty()
        },
        DocBlockV::Table => "| Table Content |\n|---------------|\n| *[Table data extracted from DOCX]* |\n\n"@,
        DocBlockV::Other => Seq::empty(),
    }
}

/// The raw text of the whole document, block by block.
pub open spec fn docx_text(bs: Seq<DocBlockV>) -> Seq<char>
    decreases bs.len(),
{
    if bs.len() == 0 {
        Seq::empty()
    } else {
        block_text(bs[0]) + docx_text(bs.subrange(1, bs.len() as int))
    }
}

proof fn lemma_docx_text_snoc(bs: Seq<DocBlockV>, b: DocBlockV)
    ensures
        docx_text(bs.push(b)) == docx_text(bs) + block_text(b),
    decreases bs.len(),
{
    if bs.len() == 0 {
        assert(bs.push(b)[0] == b);
        assert(bs.push(b).len() == 1);
        assert(bs.push(b).subrange(1, 1) =~= Seq::<DocBlockV>::empty());
        assert(docx_text(bs.push(b).subrange(1, 1)) == docx_text(Seq::<DocBlockV>::empty()));
        assert(docx_text(Seq::<DocBlockV>::empty()) == Seq::<char>::empty());
        assert(docx_text(bs.push(b)) == block_text(bs.push(b)[0]) + docx_text(bs.push(b).subrange(1, 1)));
        assert(docx_text(bs.push(b)) =~= block_text(b));
        assert(docx_text(bs) + block_text(b) =~= block_text(b));
    } else {
        assert(bs.push(b)[0] == bs[0]);
        assert(bs.push(b).subrange(1, bs.len() as int + 1) =~= bs.subrange(1, bs.len() as int).push(b));
        lemma_docx_text_snoc(bs.subrange(1, bs.len() as int), b);
        assert(docx_text(bs.push(b)) =~= docx_text(bs) + block_text(b));
    }
}

proof fn lemma_cat_texts_snoc(run: Seq<Seq<char>>, t: Seq<char>)
    ensures
        cat_texts(run.push(t)) == cat_texts(run) + t,
    decreases run.len(),
{
    if run.len() == 0 {
        assert(run.push(t)[0] == t);
        assert(run.push(t).len() == 1);
        assert(run.push(t).subrange(1, 1) =~= Seq::<Seq<char>>::empty());
        assert(cat_texts(run.push(t).subrange(1, 1)) == cat_texts(Seq::<Seq<char>>::empty()));
        assert(cat_texts(Seq::<Seq<char>>::empty()) == Seq::<char>::empty());
        assert(cat_texts(run.push(t)) == run.push(t)[0] + cat_texts(run.push(t).subrange(1, 1)));
        assert(cat_texts(run.push(t)) =~= cat_texts(run) + t);
    } else {
        assert(run.push(t)[0] == run[0]);
        assert(run.push(t).subrange(1, run.len() as int + 1) =~= run.subrange(
            1,
            run.len() as int,
        ).push(t));
        lemma_cat_texts_snoc(run.subrange(1, run.len() as int), t);
        assert(cat_texts(run.push(t)) =~= cat_texts(run) + t);
    }
}

proof fn lemma_para_text_snoc(children: Seq<Seq<Seq<char>>>, r: Seq<Seq<char>>)
    ensures
        para_text(children.push(r)) == para_text(children) + cat_texts(r),
    decreases children.len(),
{
    if children.len() == 0 {
        assert(children.push(r)[0] == r);
        assert(children.push(r).len() == 1);
        assert(children.push(r).subrange(1, 1) =~= Seq::<Seq<Seq<char>>>::empty());
        assert(para_text(children.push(r).subrange(1, 1)) == para_text(Seq::<Seq<Seq<char>>>::empty()));
        assert(para_text(Seq::<Seq<Seq<char>>>::empty()) == Seq::<char>::empty());
        assert(para_text(children.push(r)) == cat_texts(children.push(r)[0]) + para_text(children.push(r).subrange(1, 1)));
        assert(para_text(children.push(r)) =~= para_text(children) + cat_texts(r));
    } else {
        assert(children.push(r)[0] == children[0]);
        assert(children.push(r).subrange(1, children.len() as int + 1) =~= children.subrange(
            1,
            children.len() as int,
        ).push(r));
        lemma_para_text_snoc(children.subrange(1, children.len() as int), r);
        assert(para_text(children.push(r)) =~= para_text(children) + cat_texts(r));
    }
}

/// The chunks of a document with the given assembled text.
pub open spec fn doc_chunks_of(text: Seq<char>) -> Seq<ChunkV> {
    window_chunks_of(
        text,
        1000,
        200,
        "doc_chunk_"@,
        "# Document Content\n\n"@,
        "## Section "@,
        "docx"@,
        "section"@,
        "Document Section "@,
    )
}

/// The metadata record of a DOCX file.
pub open spec fn doc_metadata_v(file_name: Option<Seq<char>>, file_size: u64) -> MetadataV {
    MetadataV {
        content_type: ContentType::Document,
        file_name: file_name,
        file_size: Some(file_size),
        created_at: None,
        modified_at: None,
        author: None,
        title: None,
        language: None,
        additional: Seq::empty(),
    }
}

impl DocumentProvider {
    pub fn new() -> (r: Self)
        ensures
            r == (DocumentProvider {}),
    {
        DocumentProvider
    }

    /// Assembles the document text from its decoded blocks: paragraph texts
    /// separated by blank lines, paragraphs of pure whitespace skipped,
    /// tables replaced by a placeholder; the whole trimmed.
    pub fn extract_text_from_docx(&self, blocks: &Vec<DocBlock>) -> (r: String)
        ensures
            r@ == trim_spec(docx_text(blocks_view(blocks@))),
    {
        let ghost bv = blocks_view(blocks@);
        let mut text = String::new();
        let mut i: usize = 0;
        while i < blocks.len()
            invariant
                bv == blocks_view(blocks@),
                i <= blocks@.len(),
                bv.len() == blocks@.len(),
                text@ == docx_text(bv.subrange(0, i as int)),
            decreases blocks@.len() - i,
        {
            proof {
                assert(bv.subrange(0, i + 1) =~= bv.subrange(0, i as int).push(bv[i as int]));
                lemma_docx_text_snoc(bv.subrange(0, i as int), bv[i as int]);
            }
            match &blocks[i] {
                DocBlock::Paragraph(children) => {
                    let ghost chv = children.deep_view();
                    let mut para = String::new();
                    let mut j: usize = 0;
                    while j < children.len()
                        invariant
                            chv == children.deep_view(),
                            j <= children@.len(),
                            chv.len() == children@.len(),
                            para@ == para_text(chv.subrange(0, j as int)),
                        decreases children@.len() - j,
                    {
                        proof {
                            assert(chv.subrange(0, j + 1) =~= chv.subrange(0, j as int).push(
                                chv[j as int],
                            ));
                            lemma_para_text_snoc(chv.subrange(0, j as int), chv[j as int]);
                        }
                        let run = &children[j];
                        let ghost rv = run.deep_view();
                        proof {
                            assert(chv[j as int] == rv);
                        }
                        let mut k: usize = 0;
                        while k < run.len()
                            invariant
                                rv == run.deep_view(),
                                k <= run@.len(),
                                rv.len() == run@.len(),
                                para@ == para_text(chv.subrange(0, j as int)) + cat_texts(
                                    rv.subrange(0, k as int),
                                ),
                            decreases run@.len() - k,
                        {
                            proof {
                                assert(rv.subrange(0, k + 1) =~= rv.subrange(0, k as int).push(
                                    rv[k as int],
                                ));
                                lemma_cat_texts_snoc(rv.subrange(0, k as int), rv[k as int]);
                                assert(rv[k as int] == run@[k as int]@);
                            }
                            para.append(run[k].as_str());
                            k = k + 1;
                        }
                        proof {
                            assert(rv.subrange(0, rv.len() as int) =~= rv);
                            assert(para@ == para_text(chv.subrange(0, j as int)) + cat_texts(rv));
                        }
                        j = j + 1;
                    }
                    proof {
                        assert(chv.subrange(0, chv.len() as int) =~= chv);
                        assert(para@ == para_text(chv));
                        assert(bv[i as int] == DocBlockV::Paragraph(chv));
                    }
                    let trimmed = trim_str(para.as_str());
                    if !trimmed.as_str().is_empty() {
                        text.append(para.as_str());
                        text.append("\n\n");
                    }
                },
                DocBlock::Table => {
                    text.append(
                        "| Table Content |\n|---------------|\n| *[Table data extracted from DOCX]* |\n\n",
                    );
                    proof {
                        assert(bv[i as int] == DocBlockV::Table);
                    }
                },
                DocBlock::Other => {
                    proof {
                        assert(bv[i as int] == DocBlockV::Other);
                        assert(text@ =~= docx_text(bv.subrange(0, i + 1)));
                    }
                },
            }
            i = i + 1;
        }
        proof {
            assert(bv.subrange(0, bv.len() as int) =~= bv);
        }
        trim_str(text.as_str())
    }

    /// Sliding-window chunking of already-assembled text.
    pub fn chunk_text(&self, text: &str, chunk_size: usize, overlap: usize) -> (r: Vec<String>)
        requires
            overlap < chunk_size,
        ensures
            r.deep_view() == windows(text@, chunk_size as int, overlap as int),
    {
        chunk_text(text, chunk_size, overlap)
    }

    /// Assembles the document text from its decoded blocks and chunks it.
    pub fn to_markdown_chunks(&self, blocks: &Vec<DocBlock>) -> (r: Vec<ContentChunk>)
        ensures
            chunks_view(r@) == doc_chunks_of(trim_spec(docx_text(blocks_view(blocks@)))),
    {
        let text = self.extract_text_from_docx(blocks);
        build_window_chunks(
            text.as_str(),
            1000,
            200,
            "doc_chunk_",
            "# Document Content\n\n",
            "## Section ",
            "docx",
            "section",
            "Document Section ",
        )
    }

    /// The metadata record for a DOCX file; content decoding plays no part
    /// in it.
    pub fn to_metadata(&self, file_name: Option<String>, file_size: u64) -> (r: ContentMetadata)
        ensures
            r@ == doc_metadata_v(opt_string_view(file_name), file_size),
    {
        let r = ContentMetadata {
            content_type: ContentType::Document,
            file_name,
            file_size: Some(file_size),
            created_at: None,
            modified_at: None,
            author: None,
            title: None,
            language: None,
            additional: Vec::new(),
        };
        proof {
            assert(meta_view(r.additional) =~= Seq::<(Seq<char>, crate::models::JsonV)>::empty());
        }
        r
    }

    /// Processes one DOCX file, given the reader's outcome on it: on a
    /// decoded document, a successful result with the window chunks and the
    /// file metadata; on a decode failure, a failed result carrying the
    /// decode error, with no chunks.
    pub fn process_content(
        &self,
        decoded: Result<Vec<DocBlock>, String>,
        file_name: Option<String>,
        file_size: u64,
    ) -> (r: ContentProcessingResult)
        ensures
            result_wf(r@),
            r@.metadata == doc_metadata_v(opt_string_view(file_name), file_size),
            decoded matches Ok(bs) ==> r@.success && r@.chunks == doc_chunks_of(
                trim_spec(docx_text(blocks_view(bs@))),
            ) && r@.error is None,
            decoded matches Err(e) ==> !r@.success && r@.error == Some("decode error: "@ + e@)
                && r@.chunks == Seq::<ChunkV>::empty(),
    {
        let metadata = self.to_metadata(file_name, file_size);
        match decoded {
            Ok(blocks) => {
                let chunks = self.to_markdown_chunks(&blocks);
                let r = ContentProcessingResult { success: true, chunks, metadata, error: None };
                proof {
                    let cs = r@.chunks;
                    assert forall|i: int, j: int| 0 <= i < j < cs.len() implies cs[i].id
                        != cs[j].id by {
                        lemma_window_chunk_ids("doc_chunk_"@, i as nat, j as nat);
                    }
                    assert forall|i: int| 0 <= i < cs.len() implies #[trigger] cs[i].id.len()
                        > 0 by {
                        lemma_window_chunk_ids("doc_chunk_"@, i as nat, (i + 1) as nat);
                    }
                }
                r
            },
            Err(e) => {
                let msg = ProcessError::DecodeError(e).message();
                let r = ContentProcessingResult {
                    success: false,
                    chunks: Vec::new(),
                    metadata,
                    error: Some(msg),
                };
                proof {
                    assert(chunks_view(r.chunks@) =~= Seq::<ChunkV>::empty());
                }
                r
            },
        }
    }
}

} // verus!
