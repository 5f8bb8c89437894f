//! Provider registry: the fixed mapping from content type or file
//! extension to the provider that handles it. Extension lookup is
//! case-insensitive; unknown extensions and types yield an empty result,
//! never an error.
use crate::audio::AudioProvider;
use crate::document::DocumentProvider;
use crate::json::JsonProvider;
use crate::markdown::MarkdownProvider;
use crate::models::ContentType;
use crate::pdf::PdfProvider;
use crate::strutil::{eq_lower, lower_char, lower_seq};
use vstd::prelude::*;

verus! {

/// The provider registered for one content type.
#[derive(Debug, Clone, Copy, PartialEq, Eq, Structural)]
pub enum ProviderKind {
    Pdf(PdfProvider),
    Audio(AudioProvider),
    Document(DocumentProvider),
    StructuredData(JsonProvider),
    Markdown(MarkdownProvider),
}

/// The fixed content-type table: which provider serves each type.
pub open spec fn provider_for(ct: ContentType) -> Option<ProviderKind> {
    match ct {
        ContentType::Pdf => Some(ProviderKind::Pdf(PdfProvider {})),
        ContentType::Audio => Some(ProviderKind::Audio(AudioProvider {})),
        ContentType::Document => Some(ProviderKind::Document(DocumentProvider {})),
        ContentType::StructuredData => Some(ProviderKind::StructuredData(JsonProvider {})),
        ContentType::Markdown => Some(ProviderKind::Markdown(MarkdownProvider {})),
        _ => None,
    }
}

/// The fixed extension table, over lower-cased extensions.
pub open spec fn extension_type(e: Seq<char>) -> Option<ContentType> {
    if e == "pdf"@ {
        Some(ContentType::Pdf)
    } else if e == "wav"@ {
        Some(ContentType::Audio)
    } else if e == "docx"@ {
        Some(ContentType::Document)
    } else if e == "json"@ {
        Some(ContentType::StructuredData)
    } else if e == "md"@ || e == "markdown"@ {
        Some(ContentType::Markdown)
    } else {
        None
    }
}

/// What extension lookup returns: the extension is lower-cased, mapped to
/// its content type, and paired with that type's provider.
pub open spec fn extension_lookup(e: Seq<char>) -> Option<(ContentType, ProviderKind)> {
    match extension_type(lower_seq(e)) {
        None => None,
        Some(ct) => match provider_for(ct) {
            None => None,
            Some(p) => Some((ct, p)),
        },
    }
}

/// Resolves a provider by content type; `None` for types without one.
pub fn get_provider(content_type: &ContentType) -> (r: Option<ProviderKind>)
    ensures
        r == provider_for(*content_type),
{
    match content_type {
        ContentType::Pdf => Some(ProviderKind::Pdf(PdfProvider::new())),
        ContentType::Audio => Some(ProviderKind::Audio(AudioProvider::new())),
        ContentType::Document => Some(ProviderKind::Document(DocumentProvider::new())),
        ContentType::StructuredData => Some(ProviderKind::StructuredData(JsonProvider::new())),
        ContentType::Markdown => Some(ProviderKind::Markdown(MarkdownProvider::new())),
        _ => None,
    }
}

/// Resolves a provider by file extension, case-insensitively; `None` for
/// unsupported extensions.
pub fn get_provider_by_extension(extension: &str) -> (r: Option<(ContentType, ProviderKind)>)
    ensures
        r == extension_lookup(extension@),
{
    if eq_lower(extension, "pdf") {
        Some((ContentType::Pdf, ProviderKind::Pdf(PdfProvider::new())))
    } else if eq_lower(extension, "wav") {
        Some((ContentType::Audio, ProviderKind::Audio(AudioProvider::new())))
    } else if eq_lower(extension, "docx") {
        Some((ContentType::Document, ProviderKind::Document(DocumentProvider::new())))
    } else if eq_lower(extension, "json") {
        Some((ContentType::StructuredData, ProviderKind::StructuredData(JsonProvider::new())))
    } else if eq_lower(extension, "md") || eq_lower(extension, "markdown") {
        Some((ContentType::Markdown, ProviderKind::Markdown(MarkdownProvider::new())))
    } else {
        None
    }
}

/// Extension resolution is case-insensitive: two extensions with the same
/// ASCII lower-casing resolve to the same content type and the same
/// provider.
pub proof fn lemma_extension_case_insensitive(e1: Seq<char>, e2: Seq<char>)
    requires
        lower_seq(e1) == lower_seq(e2),
    ensures
        extension_lookup(e1) == extension_lookup(e2),
{
}

/// Lower-casing is idempotent, so an extension and its lower-cased form
/// resolve identically.
pub proof fn lemma_extension_lower_same(e: Seq<char>)
    ensures
        extension_lookup(lower_seq(e)) == extension_lookup(e),
{
    assert(lower_seq(lower_seq(e)) =~= lower_seq(e)) by {
        assert forall|i: int| 0 <= i < e.len() implies lower_seq(lower_seq(e))[i] == lower_seq(
            e,
        )[i] by {
            let c = e[i];
            assert(lower_seq(e)[i] == lower_char(c));
            assert(lower_seq(lower_seq(e))[i] == lower_char(lower_char(c)));
            if 'A' <= c && c <= 'Z' {
                assert(c as u32 >= 65 && c as u32 <= 90);
                assert((c as u8) as u32 == c as u32);
                assert(lower_char(c) as u32 == c as u32 + 32);
                assert(!('A' <= lower_char(c) && lower_char(c) <= 'Z'));
            }
        }
    }
    lemma_extension_case_insensitive(lower_seq(e), e);
}

/// The provider found by extension is the one registered for the content
/// type beside it.
pub proof fn lemma_extension_consistent(e: Seq<char>)
    ensures
        extension_lookup(e) matches Some(p) ==> provider_for(p.0) == Some(p.1),
{
}

} // verus!
