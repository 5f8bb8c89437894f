use p8fs_node::audio::AudioProvider;
use p8fs_node::document::{DocBlock, DocumentProvider};
use p8fs_node::json::JsonProvider;
use p8fs_node::markdown::MarkdownProvider;
use p8fs_node::models::{ContentType, JsonValue};
use p8fs_node::pdf::PdfProvider;

#[test]
fn test_json_to_markdown() {
    let provider = JsonProvider::new();
    let value = JsonValue::Obj(vec![
        (
            "items".to_string(),
            JsonValue::Arr(vec![
                JsonValue::Num("1".to_string()),
                JsonValue::Num("2".to_string()),
                JsonValue::Num("3".to_string()),
            ]),
        ),
        ("name".to_string(), JsonValue::Str("test".to_string())),
        (
            "nested".to_string(),
            JsonValue::Obj(vec![(
                "key".to_string(),
                JsonValue::Str("value".to_string()),
            )]),
        ),
    ]);

    let markdown = provider.json_to_markdown(&value, 0);
    assert!(markdown.contains("**name**"));
    assert!(markdown.contains("**items**"));
    assert!(markdown.contains("**nested**"));
}

#[test]
fn test_pdf_chunk_text() {
    let provider = PdfProvider::new();
    let text = "a".repeat(2500); // Long text

    let chunks = provider.chunk_text(&text, 1000, 200);

    assert!(chunks.len() > 2);
    assert_eq!(chunks[0].len(), 1000);

    // Check overlap
    let overlap_start = &chunks[0][800..];
    let next_start = &chunks[1][..200];
    assert_eq!(overlap_start, next_start);
}

#[test]
fn test_chunk_text_short_input() {
    let provider = PdfProvider::new();
    let chunks = provider.chunk_text("tiny", 1000, 200);
    assert_eq!(chunks, vec!["tiny".to_string()]);

    // the boundary case: a text of at most chunk_size characters is one
    // chunk equal to the text, even when empty
    let empty = provider.chunk_text("", 1000, 200);
    assert_eq!(empty, vec![String::new()]);
}

#[test]
fn test_chunk_text_reconstruction() {
    let provider = DocumentProvider::new();
    let text: String = ('a'..='z').cycle().take(57).collect();
    let chunks = provider.chunk_text(&text, 10, 3);
    // every chunk but the last is exactly the window size
    for c in chunks.iter().take(chunks.len() - 1) {
        assert_eq!(c.chars().count(), 10);
    }
    // concatenating each chunk's non-overlapping prefix (the whole final
    // chunk) reconstructs the text
    let mut rebuilt = String::new();
    for (i, c) in chunks.iter().enumerate() {
        if i + 1 == chunks.len() {
            rebuilt.push_str(c);
        } else {
            rebuilt.push_str(&c.chars().take(7).collect::<String>());
        }
    }
    assert_eq!(rebuilt, text);
}

#[test]
fn test_markdown_extract_sections() {
    let provider = MarkdownProvider::new();
    let markdown = "# Main Title\n\nIntro text\n\n## Section\n\nSection content";

    let sections = provider.extract_sections(markdown);
    assert_eq!(sections.len(), 2);

    assert_eq!(sections[0].0, "Main Title");
    assert_eq!(sections[0].2, 1); // heading level

    assert_eq!(sections[1].0, "Section");
    assert_eq!(sections[1].2, 2); // heading level
}

#[test]
fn test_markdown_heading_levels() {
    let provider = MarkdownProvider::new();
    let chunks = provider.to_markdown_chunks("# A\n\n## B\n\n## C\n\n### D");
    assert_eq!(chunks.len(), 4);
    let levels: Vec<&JsonValue> = chunks
        .iter()
        .map(|c| {
            &c.metadata
                .iter()
                .find(|(k, _)| k == "heading_level")
                .unwrap()
                .1
        })
        .collect();
    assert_eq!(*levels[0], JsonValue::Num("1".to_string()));
    assert_eq!(*levels[1], JsonValue::Num("2".to_string()));
    assert_eq!(*levels[2], JsonValue::Num("2".to_string()));
    assert_eq!(*levels[3], JsonValue::Num("3".to_string()));
    assert!(chunks[0].content.starts_with("# A"));
    assert_eq!(chunks[0].id, "md_chunk_0");
}

#[test]
fn test_markdown_metadata_title() {
    let provider = MarkdownProvider::new();
    let m = provider.to_metadata(
        "intro line\n\n## The Title  \n\nbody",
        Some("t.md".to_string()),
        9,
    );
    assert_eq!(m.content_type, ContentType::Markdown);
    assert_eq!(m.title, Some("The Title".to_string()));
    assert_eq!(m.file_name, Some("t.md".to_string()));
    assert_eq!(m.file_size, Some(9));
}

#[test]
fn test_audio_segment_calculation() {
    let provider = AudioProvider::new();
    let samples = vec![0i16; 44100 * 60]; // 60 seconds at 44.1kHz

    let segments = provider.segment_audio(samples.len(), 44100, 30);

    assert_eq!(segments.len(), 2); // Two 30-second segments
    assert_eq!(segments[0].0, 0);
    assert_eq!(segments[0].1, 44100 * 30);
    assert_eq!(segments[1].0, 44100 * 30);
    assert_eq!(segments[1].1, 44100 * 60);
}

#[test]
fn test_audio_segment_truncation() {
    let provider = AudioProvider::new();
    // one full segment and one sample over: ceil division gives two
    // segments, the last ending exactly at the sample count
    let segments = provider.segment_audio(44100 * 30 + 1, 44100, 30);
    assert_eq!(segments.len(), 2);
    assert_eq!(segments[1], (44100 * 30, 44100 * 30 + 1));
    assert!(provider.segment_audio(0, 44100, 30).is_empty());
}

#[test]
fn test_json_provider_with_kind() {
    let provider = JsonProvider::new();
    let test_content = r#"{"kind": "Doc", "title": "T"}"#;

    let chunks = provider.to_markdown_chunks(test_content).unwrap();
    assert_eq!(chunks.len(), 1);
    assert!(chunks[0].content.contains("## Doc"));
    let kind = &chunks[0]
        .metadata
        .iter()
        .find(|(k, _)| k == "kind")
        .unwrap()
        .1;
    assert_eq!(*kind, JsonValue::Str("Doc".to_string()));
    let path = &chunks[0]
        .metadata
        .iter()
        .find(|(k, _)| k == "path")
        .unwrap()
        .1;
    assert_eq!(*path, JsonValue::Str(String::new()));
}

#[test]
fn test_json_provider_simple() {
    let provider = JsonProvider::new();
    let test_content = r#"{"name": "test", "value": 42}"#;

    let result = provider.process_content(test_content, Some("t.json".to_string()), 29);
    assert!(result.success);
    assert!(!result.chunks.is_empty());
    assert_eq!(result.metadata.content_type, ContentType::StructuredData);
}

#[test]
fn test_json_provider_scalar_document() {
    let provider = JsonProvider::new();
    let chunks = provider.to_markdown_chunks("42").unwrap();
    assert_eq!(chunks.len(), 1);
    assert_eq!(chunks[0].content, "42");
    let path = &chunks[0]
        .metadata
        .iter()
        .find(|(k, _)| k == "path")
        .unwrap()
        .1;
    assert_eq!(*path, JsonValue::Str(String::new()));
}

#[test]
fn test_json_provider_invalid_input() {
    let provider = JsonProvider::new();
    let result = provider.process_content("{not json", None, 9);
    assert!(!result.success);
    assert!(result.error.is_some());
    assert!(result.chunks.is_empty());
}

#[test]
fn test_wav_provider_end_to_end() {
    let spec = hound::WavSpec {
        channels: 1,
        sample_rate: 8000,
        bits_per_sample: 16,
        sample_format: hound::SampleFormat::Int,
    };
    let mut cursor = std::io::Cursor::new(Vec::new());
    {
        let mut writer = hound::WavWriter::new(&mut cursor, spec).unwrap();
        for i in 0..16000i32 {
            writer.write_sample((i % 128) as i16).unwrap();
        }
        writer.finalize().unwrap();
    }
    let bytes = cursor.into_inner();

    let provider = AudioProvider::new();
    let result = provider.process_content(&bytes, Some("a.wav".to_string()), bytes.len() as u64);
    assert!(result.success);
    // two seconds of audio in thirty-second windows: one segment
    assert_eq!(result.chunks.len(), 1);
    assert!(result.chunks[0].content.contains("## Audio Segment 1"));
    assert!(result.chunks[0].content.contains("8000 Hz"));
    let rate = &result
        .metadata
        .additional
        .iter()
        .find(|(k, _)| k == "sample_rate")
        .unwrap()
        .1;
    assert_eq!(*rate, JsonValue::Num("8000".to_string()));
    let dur = &result
        .metadata
        .additional
        .iter()
        .find(|(k, _)| k == "duration_seconds")
        .unwrap()
        .1;
    assert_eq!(*dur, JsonValue::Num("2.000".to_string()));
}

#[test]
fn test_wav_provider_invalid_input() {
    let provider = AudioProvider::new();
    let result = provider.process_content(&vec![1u8, 2, 3], None, 3);
    assert!(!result.success);
    assert!(result.error.is_some());
    assert!(result.chunks.is_empty());
}

#[test]
fn test_docx_provider_end_to_end() {
    let mut cursor = std::io::Cursor::new(Vec::new());
    docx_rs::Docx::new()
        .add_paragraph(
            docx_rs::Paragraph::new().add_run(docx_rs::Run::new().add_text("Hello from the test")),
        )
        .build()
        .pack(&mut cursor)
        .unwrap();
    let bytes = cursor.into_inner();

    // the caller's side of the split: read the archive and map the tree to
    // the library's blocks
    let docx = docx_rs::read_docx(&bytes).unwrap();
    let blocks: Vec<DocBlock> = docx
        .document
        .children
        .iter()
        .map(|c| match c {
            docx_rs::DocumentChild::Paragraph(p) => DocBlock::Paragraph(
                p.children
                    .iter()
                    .map(|pc| match pc {
                        docx_rs::ParagraphChild::Run(run) => run
                            .children
                            .iter()
                            .map(|rc| match rc {
                                docx_rs::RunChild::Text(t) => t.text.clone(),
                                _ => String::new(),
                            })
                            .collect(),
                        _ => Vec::new(),
                    })
                    .collect(),
            ),
            docx_rs::DocumentChild::Table(_) => DocBlock::Table,
            _ => DocBlock::Other,
        })
        .collect();

    let provider = DocumentProvider::new();
    let chunks = provider.to_markdown_chunks(&blocks);
    assert_eq!(chunks.len(), 1);
    assert!(chunks[0].content.contains("Hello from the test"));
    assert!(chunks[0].content.starts_with("# Document Content"));
    assert_eq!(chunks[0].id, "doc_chunk_0");
}

#[test]
fn test_docx_provider_invalid_input() {
    // the reader refuses bytes that are no archive; the failed outcome is
    // handed to the library, which reports it
    let decoded = docx_rs::read_docx(&[0u8; 8]).map_err(|e| e.to_string()).map(|_| Vec::new());
    assert!(decoded.is_err());
    let provider = DocumentProvider::new();
    let result = provider.process_content(decoded, None, 8);
    assert!(!result.success);
    assert!(result.error.is_some());
}

#[test]
fn test_pdf_provider_invalid_input() {
    // the extractor refuses bytes without a document header; the failed
    // outcome is handed to the library, which reports it
    let decoded = pdf_extract::extract_text_from_mem(b"not a pdf").map_err(|e| e.to_string());
    assert!(decoded.is_err());
    let provider = PdfProvider::new();
    let result = provider.process_content(decoded, Some("x.pdf".to_string()), 9);
    assert!(!result.success);
    assert!(result.error.is_some());
    assert_eq!(result.metadata.content_type, ContentType::Pdf);
    assert_eq!(result.metadata.file_size, Some(9));
}

#[test]
fn test_json_nested_kind_chunks() {
    let provider = JsonProvider::new();
    let text = r#"{"kind": "Outer", "child": {"kind": "Inner", "x": 1}}"#;
    let chunks = provider.to_markdown_chunks(text).unwrap();
    // one chunk for each object bearing a kind, and nothing else
    assert_eq!(chunks.len(), 2);
    assert!(chunks[0].content.contains("## Outer"));
    assert!(chunks[1].content.contains("## Inner"));
    let path = &chunks[1]
        .metadata
        .iter()
        .find(|(k, _)| k == "path")
        .unwrap()
        .1;
    assert_eq!(*path, JsonValue::Str("child".to_string()));
}

#[test]
fn test_markdown_provider_sections() {
    let provider = MarkdownProvider::new();
    let test_content = "# Title\n\nThis is the introduction.\n\n## Section 1\n\nContent for section 1.\n\n## Section 2\n\nContent for section 2.\n\n### Subsection 2.1\n\nNested content.";

    let chunks = provider.to_markdown_chunks(test_content);
    assert_eq!(chunks.len(), 4); // Title, Section 1, Section 2, Subsection 2.1

    let title = &chunks[0]
        .metadata
        .iter()
        .find(|(k, _)| k == "section_title")
        .unwrap()
        .1;
    assert_eq!(*title, JsonValue::Str("Title".to_string()));
    let level0 = &chunks[0]
        .metadata
        .iter()
        .find(|(k, _)| k == "heading_level")
        .unwrap()
        .1;
    assert_eq!(*level0, JsonValue::Num("1".to_string()));

    let title2 = &chunks[2]
        .metadata
        .iter()
        .find(|(k, _)| k == "section_title")
        .unwrap()
        .1;
    assert_eq!(*title2, JsonValue::Str("Section 2".to_string()));
    let level2 = &chunks[2]
        .metadata
        .iter()
        .find(|(k, _)| k == "heading_level")
        .unwrap()
        .1;
    assert_eq!(*level2, JsonValue::Num("2".to_string()));
}

#[test]
fn test_pdf_provider_end_to_end() {
    // a minimal one-page PDF with a single text object, assembled with a
    // correct cross-reference table
    let objects: Vec<String> = vec![
        "1 0 obj\n<< /Type /Catalog /Pages 2 0 R >>\nendobj\n".to_string(),
        "2 0 obj\n<< /Type /Pages /Kids [3 0 R] /Count 1 >>\nendobj\n".to_string(),
        "3 0 obj\n<< /Type /Page /Parent 2 0 R /MediaBox [0 0 612 792] /Contents 4 0 R /Resources << /Font << /F1 5 0 R >> >> >>\nendobj\n".to_string(),
        {
            let stream = "BT /F1 24 Tf 72 720 Td (Hello PDF) Tj ET";
            format!(
                "4 0 obj\n<< /Length {} >>\nstream\n{}\nendstream\nendobj\n",
                stream.len(),
                stream
            )
        },
        "5 0 obj\n<< /Type /Font /Subtype /Type1 /BaseFont /Helvetica >>\nendobj\n".to_string(),
    ];
    let mut pdf = String::from("%PDF-1.4\n");
    let mut offsets = Vec::new();
    for obj in &objects {
        offsets.push(pdf.len());
        pdf.push_str(obj);
    }
    let xref_pos = pdf.len();
    pdf.push_str(&format!("xref\n0 {}\n", objects.len() + 1));
    pdf.push_str("0000000000 65535 f \n");
    for off in &offsets {
        pdf.push_str(&format!("{:010} 00000 n \n", off));
    }
    pdf.push_str(&format!(
        "trailer\n<< /Size {} /Root 1 0 R >>\nstartxref\n{}\n%%EOF\n",
        objects.len() + 1,
        xref_pos
    ));
    let bytes = pdf.into_bytes();

    let decoded = pdf_extract::extract_text_from_mem(&bytes).map_err(|e| e.to_string());
    let provider = PdfProvider::new();
    let result = provider.process_content(decoded, Some("hello.pdf".to_string()), bytes.len() as u64);
    assert!(result.success, "error: {:?}", result.error);
    assert_eq!(result.chunks.len(), 1);
    assert!(result.chunks[0].content.contains("Hello PDF"));
    assert!(result.chunks[0].content.starts_with("# PDF Document Content"));
    assert_eq!(result.chunks[0].id, "pdf_chunk_0");
}

#[test]
fn test_json_provider_kind_with_array() {
    let provider = JsonProvider::new();
    let test_content = r#"{"kind": "TestObject", "name": "test", "data": [1, 2, 3]}"#;

    let chunks = provider.to_markdown_chunks(test_content).unwrap();
    assert!(!chunks.is_empty());

    let first_chunk = &chunks[0];
    assert!(first_chunk.content.contains("## TestObject"));
    assert!(first_chunk.metadata.iter().any(|(k, _)| k == "kind"));
}

#[test]
fn test_markdown_body_follows_heading() {
    let provider = MarkdownProvider::new();
    // the chunk is the heading marker, the title, a blank line, and then
    // exactly the content following the heading
    let chunks = provider.to_markdown_chunks("# A\n\nhello");
    assert_eq!(chunks.len(), 1);
    assert_eq!(chunks[0].content, "# A\n\nhello");

    let sections = provider.extract_sections("# A\n\nhello");
    assert_eq!(sections, vec![("A".to_string(), "hello".to_string(), 1)]);
}

#[test]
fn test_markdown_no_heading_fallback() {
    let provider = MarkdownProvider::new();
    // a headingless document with text: one section titled empty-string
    let sections = provider.extract_sections("just some text");
    assert_eq!(sections.len(), 1);
    assert_eq!(sections[0].0, "");
    assert_eq!(sections[0].1, "just some text");

    // a non-empty document whose token stream carries no text at all:
    // still one section titled empty-string, the whole document as content
    let bare = provider.extract_sections("---");
    assert_eq!(bare, vec![(String::new(), "---".to_string(), 0)]);

    // an empty document yields no sections
    assert!(provider.extract_sections("").is_empty());
}
