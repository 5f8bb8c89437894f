use p8fs_node::codec::{metadata_from_json, metadata_to_json, result_from_json, result_to_json};
use p8fs_node::models::{
    ContentChunk, ContentMetadata, ContentProcessingResult, ContentType, EmbeddingRequest,
    JsonValue, ProcessError, Usage,
};

#[test]
fn test_content_type_serialization() {
    let ct = ContentType::Pdf;
    let serialized = format!("\"{}\"", ct.wire_name());
    assert_eq!(serialized, "\"PDF\"");

    let deserialized = ContentType::from_wire_name(&ct.wire_name()).unwrap();
    assert_eq!(deserialized, ContentType::Pdf);
}

#[test]
fn test_content_chunk_creation() {
    let mut metadata: Vec<(String, JsonValue)> = Vec::new();
    metadata.push(("test".to_string(), JsonValue::Str("value".to_string())));

    let chunk = ContentChunk {
        id: "test_chunk".to_string(),
        content: "Test content".to_string(),
        metadata,
    };

    assert_eq!(chunk.id, "test_chunk");
    assert_eq!(chunk.content, "Test content");
    let found = chunk.metadata.iter().find(|(k, _)| k == "test").unwrap();
    assert_eq!(found.1, JsonValue::Str("value".to_string()));
}

#[test]
fn test_content_metadata_serialization() {
    let metadata = ContentMetadata {
        content_type: ContentType::Markdown,
        file_name: Some("test.md".to_string()),
        file_size: Some(1024),
        created_at: None,
        modified_at: None,
        author: Some("Test Author".to_string()),
        title: Some("Test Title".to_string()),
        language: Some("en".to_string()),
        additional: Vec::new(),
    };

    let serialized = metadata_to_json(&metadata);
    let deserialized = metadata_from_json(&serialized).unwrap();

    assert_eq!(deserialized.content_type, ContentType::Markdown);
    assert_eq!(deserialized.file_name, Some("test.md".to_string()));
    assert_eq!(deserialized.file_size, Some(1024));
    assert_eq!(deserialized.author, Some("Test Author".to_string()));
}

#[test]
fn test_content_processing_result() {
    let chunk = ContentChunk {
        id: "chunk1".to_string(),
        content: "Content".to_string(),
        metadata: Vec::new(),
    };

    let metadata = ContentMetadata {
        content_type: ContentType::Text,
        file_name: Some("test.txt".to_string()),
        file_size: Some(100),
        created_at: None,
        modified_at: None,
        author: None,
        title: None,
        language: None,
        additional: Vec::new(),
    };

    let result = ContentProcessingResult {
        success: true,
        chunks: vec![chunk],
        metadata,
        error: None,
    };

    assert!(result.success);
    assert_eq!(result.chunks.len(), 1);
    assert!(result.error.is_none());
}

#[test]
fn test_embedding_request() {
    let request = EmbeddingRequest {
        input: vec!["Hello".to_string(), "World".to_string()],
        model: Some("test-model".to_string()),
        encoding_format: Some("float".to_string()),
        dimensions: Some(384),
    };

    assert_eq!(request.input.len(), 2);
    assert_eq!(request.model, Some("test-model".to_string()));
    assert_eq!(request.dimensions, Some(384));
}

#[test]
fn test_result_round_trip() {
    let chunk = ContentChunk {
        id: "c0".to_string(),
        content: "body".to_string(),
        metadata: vec![
            ("chunk_index".to_string(), JsonValue::Num("0".to_string())),
            ("source".to_string(), JsonValue::Str("pdf".to_string())),
        ],
    };
    let metadata = ContentMetadata {
        content_type: ContentType::Pdf,
        file_name: Some("a.pdf".to_string()),
        file_size: Some(18446744073709551615),
        created_at: None,
        modified_at: None,
        author: None,
        title: None,
        language: None,
        additional: vec![("flag".to_string(), JsonValue::Bool(true))],
    };
    let result = ContentProcessingResult {
        success: true,
        chunks: vec![chunk],
        metadata,
        error: None,
    };
    let encoded = result_to_json(&result);
    let decoded = result_from_json(&encoded).unwrap();
    assert_eq!(decoded, result);
}

#[test]
fn test_failed_result_round_trip() {
    let metadata = ContentMetadata {
        content_type: ContentType::Audio,
        file_name: None,
        file_size: Some(0),
        created_at: None,
        modified_at: None,
        author: None,
        title: None,
        language: None,
        additional: Vec::new(),
    };
    let result = ContentProcessingResult {
        success: false,
        chunks: Vec::new(),
        metadata,
        error: Some("decode error: bad header".to_string()),
    };
    let encoded = result_to_json(&result);
    let decoded = result_from_json(&encoded).unwrap();
    assert_eq!(decoded, result);
}

#[test]
fn test_wire_names_all_types() {
    let cases = vec![
        (ContentType::Pdf, "PDF"),
        (ContentType::Audio, "AUDIO"),
        (ContentType::Markdown, "MARKDOWN"),
        (ContentType::StructuredData, "STRUCTUREDDATA"),
        (ContentType::Document, "DOCUMENT"),
        (ContentType::Unknown, "UNKNOWN"),
    ];
    for (ct, tag) in cases {
        assert_eq!(ct.wire_name(), tag);
        assert_eq!(ContentType::from_wire_name(tag), Some(ct));
    }
    assert_eq!(ContentType::from_wire_name("pdf"), None);
}

#[test]
fn test_error_messages() {
    assert_eq!(
        ProcessError::UnsupportedFormat.message(),
        "unsupported format"
    );
    assert_eq!(
        ProcessError::DecodeError("bad".to_string()).message(),
        "decode error: bad"
    );
    assert_eq!(
        ProcessError::IoError("gone".to_string()).message(),
        "io error: gone"
    );
    assert_eq!(
        ProcessError::EmbeddingUnavailable.message(),
        "embedding unavailable"
    );
}

#[test]
fn test_usage_word_count() {
    let texts = vec!["Hello world".to_string(), "  one  two three ".to_string()];
    let usage: Usage = p8fs_node::embed::usage_for(&texts);
    assert_eq!(usage.prompt_tokens, 5);
    assert_eq!(usage.total_tokens, 5);
}
