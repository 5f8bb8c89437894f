//! Data model of the content processing engine: content types, structured
//! values, chunks, per-file metadata, and the processing result.
use vstd::prelude::*;

verus! {

/// Closed enumeration of the content types the engine knows about.
#[derive(Debug, Clone, Copy, PartialEq, Eq, Hash, Structural)]
pub enum ContentType {
    Pdf,
    Audio,
    Video,
    Image,
    Text,
    Markdown,
    StructuredData,
    Document,
    Spreadsheet,
    Presentation,
    Archive,
    Code,
    Email,
    Web,
    Unknown,
}

/// A structured (JSON-like) value. Numbers carry their textual rendering,
/// so that the engine never manipulates floating point.
#[derive(Debug, PartialEq, Eq)]
pub enum JsonValue {
    Null,
    Bool(bool),
    Num(String),
    Str(String),
    Arr(Vec<JsonValue>),
    Obj(Vec<(String, JsonValue)>),
}

/// The mathematical model of a `JsonValue`.
pub enum JsonV {
    Null,
    Bool(bool),
    Num(Seq<char>),
    Str(Seq<char>),
    Arr(Seq<JsonV>),
    Obj(Seq<(Seq<char>, JsonV)>),
}

pub open spec fn jv_view(v: JsonValue) -> JsonV
    decreases v,
    via jv_view_decreases
{
    match v {
        JsonValue::Null => JsonV::Null,
        JsonValue::Bool(b) => JsonV::Bool(b),
        JsonValue::Num(s) => JsonV::Num(s@),
        JsonValue::Str(s) => JsonV::Str(s@),
        JsonValue::Arr(a) => JsonV::Arr(jv_view_arr(a@)),
        JsonValue::Obj(o) => JsonV::Obj(jv_view_obj(o@)),
    }
}

pub open spec fn jv_view_arr(s: Seq<JsonValue>) -> Seq<JsonV>
    decreases s,
    via jv_view_arr_decreases
{
    if s.len() == 0 {
        Seq::empty()
    } else {
        seq![jv_view(s[0])] + jv_view_arr(s.subrange(1, s.len() as int))
    }
}

pub open spec fn jv_view_obj(s: Seq<(String, JsonValue)>) -> Seq<(Seq<char>, JsonV)>
    decreases s,
    via jv_view_obj_decreases
{
    if s.len() == 0 {
        Seq::empty()
    } else {
        seq![(s[0].0@, jv_view(s[0].1))] + jv_view_obj(s.subrange(1, s.len() as int))
    }
}

#[via_fn]
proof fn jv_view_decreases(v: JsonValue) {
    match v {
        JsonValue::Arr(a) => {
            assert(decreases_to!(v => a));
            assert(decreases_to!(a => a@));
        },
        JsonValue::Obj(o) => {
            assert(decreases_to!(v => o));
            assert(decreases_to!(o => o@));
        },
        _ => {},
    }
}

#[via_fn]
proof fn jv_view_arr_decreases(s: Seq<JsonValue>) {
    broadcast use vstd::seq::axiom_seq_index_decreases, vstd::seq::axiom_seq_subrange_decreases;

    if s.len() > 0 {
        assert(decreases_to!(s => s[0]));
        assert(decreases_to!(s => s.subrange(1, s.len() as int)));
    }
}

#[via_fn]
proof fn jv_view_obj_decreases(s: Seq<(String, JsonValue)>) {
    broadcast use vstd::seq::axiom_seq_index_decreases, vstd::seq::axiom_seq_subrange_decreases;

    if s.len() > 0 {
        assert(decreases_to!(s => s[0]));
        assert(decreases_to!(s[0] => s[0].1));
        assert(decreases_to!(s => s.subrange(1, s.len() as int)));
    }
}

impl View for JsonValue {
    type V = JsonV;

    open spec fn view(&self) -> JsonV {
        jv_view(*self)
    }
}

/// The element at position `i` of the view of an array's elements is the
/// view of the element at position `i`.
pub proof fn lemma_jv_view_arr(s: Seq<JsonValue>)
    ensures
        jv_view_arr(s).len() == s.len(),
        forall|i: int| 0 <= i < s.len() ==> jv_view_arr(s)[i] == jv_view(s[i]),
    decreases s.len(),
{
    if s.len() > 0 {
        lemma_jv_view_arr(s.subrange(1, s.len() as int));
        assert forall|i: int| 0 <= i < s.len() implies jv_view_arr(s)[i] == jv_view(s[i]) by {
            if i > 0 {
                assert(s.subrange(1, s.len() as int)[i - 1] == s[i]);
            }
        }
    }
}

/// The entry at position `i` of the view of an object's entries is the
/// view of the entry at position `i`.
pub proof fn lemma_jv_view_obj(s: Seq<(String, JsonValue)>)
    ensures
        jv_view_obj(s).len() == s.len(),
        forall|i: int|
            0 <= i < s.len() ==> jv_view_obj(s)[i] == (s[i].0@, jv_view(s[i].1)),
    decreases s.len(),
{
    if s.len() > 0 {
        lemma_jv_view_obj(s.subrange(1, s.len() as int));
        assert forall|i: int| 0 <= i < s.len() implies jv_view_obj(s)[i] == (
            s[i].0@,
            jv_view(s[i].1),
        ) by {
            if i > 0 {
                assert(s.subrange(1, s.len() as int)[i - 1] == s[i]);
            }
        }
    }
}

impl JsonValue {
    /// A structural copy of the value; `clone` derived on a recursive type
    /// would say nothing about the result.
    pub fn duplicate(&self) -> (r: JsonValue)
        ensures
            r@ == self@,
        decreases *self,
    {
        match self {
            JsonValue::Null => JsonValue::Null,
            JsonValue::Bool(b) => JsonValue::Bool(*b),
            JsonValue::Num(s) => JsonValue::Num(s.clone()),
            JsonValue::Str(s) => JsonValue::Str(s.clone()),
            JsonValue::Arr(a) => {
                let mut out: Vec<JsonValue> = Vec::new();
                let mut i: usize = 0;
                while i < a.len()
                    invariant
                        *self == JsonValue::Arr(*a),
                        i <= a.len(),
                        out@.len() == i as int,
                        forall|j: int| 0 <= j < i as int ==> out@[j]@ == a@[j]@,
                    decreases a.len() - i,
                {
                    proof {
                        broadcast use vstd::seq::axiom_seq_index_decreases;

                        assert(decreases_to!(*self => self->Arr_0));
                        assert(decreases_to!(*a => a@));
                    }
                    let c = a[i].duplicate();
                    out.push(c);
                    i = i + 1;
                }
                proof {
                    lemma_jv_view_arr(a@);
                    lemma_jv_view_arr(out@);
                    assert(jv_view_arr(out@) =~= jv_view_arr(a@));
                }
                JsonValue::Arr(out)
            },
            JsonValue::Obj(o) => {
                let mut out: Vec<(String, JsonValue)> = Vec::new();
                let mut i: usize = 0;
                while i < o.len()
                    invariant
                        *self == JsonValue::Obj(*o),
                        i <= o.len(),
                        out@.len() == i as int,
                        forall|j: int|
                            0 <= j < i as int ==> out@[j].0@ == o@[j].0@ && out@[j].1@
                                == o@[j].1@,
                    decreases o.len() - i,
                {
                    proof {
                        broadcast use vstd::seq::axiom_seq_index_decreases;

                        assert(decreases_to!(*self => self->Obj_0));
                        assert(decreases_to!(*o => o@));
                        assert(decreases_to!(o@[i as int] => o@[i as int].1));
                    }
                    let kv = &o[i];
                    let c = kv.1.duplicate();
                    out.push((kv.0.clone(), c));
                    i = i + 1;
                }
                proof {
                    lemma_jv_view_obj(o@);
                    lemma_jv_view_obj(out@);
                    assert(jv_view_obj(out@) =~= jv_view_obj(o@));
                }
                JsonValue::Obj(out)
            },
        }
    }
}

/// A mapping from string keys to structured values, insertion order kept,
/// keys unique.
pub type MetaMap = Vec<(String, JsonValue)>;

/// The model of a `MetaMap`.
pub type MetaMapV = Seq<(Seq<char>, JsonV)>;

pub open spec fn meta_view(m: MetaMap) -> MetaMapV {
    jv_view_obj(m@)
}

/// Keys of the mapping are pairwise distinct.
pub open spec fn meta_keys_unique(m: MetaMapV) -> bool {
    forall|i: int, j: int| 0 <= i < j < m.len() ==> m[i].0 != m[j].0
}

/// A structural copy of a metadata mapping.
pub fn meta_dup(m: &MetaMap) -> (r: MetaMap)
    ensures
        jv_view_obj(r@) == jv_view_obj(m@),
{
    proof {
        lemma_jv_view_obj(m@);
    }
    let mut out: MetaMap = Vec::new();
    let mut i: usize = 0;
    while i < m.len()
        invariant
            i <= m@.len(),
            out@.len() == i as int,
            forall|j: int|
                0 <= j < i as int ==> out@[j].0@ == m@[j].0@ && out@[j].1@ == m@[j].1@,
        decreases m@.len() - i,
    {
        let kv = &m[i];
        let c = kv.1.duplicate();
        out.push((kv.0.clone(), c));
        i = i + 1;
    }
    proof {
        lemma_jv_view_obj(out@);
        assert(jv_view_obj(out@) =~= jv_view_obj(m@));
    }
    out
}

/// One unit of extracted content.
#[derive(Debug, PartialEq, Eq)]
pub struct ContentChunk {
    pub id: String,
    pub content: String,
    pub metadata: MetaMap,
}

/// The model of a `ContentChunk`.
pub struct ChunkV {
    pub id: Seq<char>,
    pub content: Seq<char>,
    pub metadata: MetaMapV,
}

impl View for ContentChunk {
    type V = ChunkV;

    open spec fn view(&self) -> ChunkV {
        ChunkV { id: self.id@, content: self.content@, metadata: meta_view(self.metadata) }
    }
}

/// One record of per-file facts. Absent fields mean "not determinable from
/// this format", never "empty".
#[derive(Debug, PartialEq, Eq)]
pub struct ContentMetadata {
    pub content_type: ContentType,
    pub file_name: Option<String>,
    pub file_size: Option<u64>,
    pub created_at: Option<String>,
    pub modified_at: Option<String>,
    pub author: Option<String>,
    pub title: Option<String>,
    pub language: Option<String>,
    pub additional: MetaMap,
}

/// The model of a `ContentMetadata`.
pub struct MetadataV {
    pub content_type: ContentType,
    pub file_name: Option<Seq<char>>,
    pub file_size: Option<u64>,
    pub created_at: Option<Seq<char>>,
    pub modified_at: Option<Seq<char>>,
    pub author: Option<Seq<char>>,
    pub title: Option<Seq<char>>,
    pub language: Option<Seq<char>>,
    pub additional: MetaMapV,
}

pub open spec fn opt_string_view(o: Option<String>) -> Option<Seq<char>> {
    match o {
        Option::None => Option::None,
        Option::Some(s) => Option::Some(s@),
    }
}

impl View for ContentMetadata {
    type V = MetadataV;

    open spec fn view(&self) -> MetadataV {
        MetadataV {
            content_type: self.content_type,
            file_name: opt_string_view(self.file_name),
            file_size: self.file_size,
            created_at: opt_string_view(self.created_at),
            modified_at: opt_string_view(self.modified_at),
            author: opt_string_view(self.author),
            title: opt_string_view(self.title),
            language: opt_string_view(self.language),
            additional: meta_view(self.additional),
        }
    }
}

/// The sole return value of the engine's top-level operation.
#[derive(Debug, PartialEq, Eq)]
pub struct ContentProcessingResult {
    pub success: bool,
    pub chunks: Vec<ContentChunk>,
    pub metadata: ContentMetadata,
    pub error: Option<String>,
}

/// The model of a `ContentProcessingResult`.
pub struct ResultV {
    pub success: bool,
    pub chunks: Seq<ChunkV>,
    pub metadata: MetadataV,
    pub error: Option<Seq<char>>,
}

pub open spec fn chunks_view(chunks: Seq<ContentChunk>) -> Seq<ChunkV>
    decreases chunks,
    via chunks_view_decreases
{
    if chunks.len() == 0 {
        Seq::empty()
    } else {
        seq![chunks[0]@] + chunks_view(chunks.subrange(1, chunks.len() as int))
    }
}

#[via_fn]
proof fn chunks_view_decreases(chunks: Seq<ContentChunk>) {
    broadcast use vstd::seq::axiom_seq_index_decreases, vstd::seq::axiom_seq_subrange_decreases;

    if chunks.len() > 0 {
        assert(decreases_to!(chunks => chunks[0]));
        assert(decreases_to!(chunks => chunks.subrange(1, chunks.len() as int)));
    }
}

/// The element at position `i` of the view of a chunk sequence is the view
/// of the chunk at position `i`.
pub proof fn lemma_chunks_view(chunks: Seq<ContentChunk>)
    ensures
        chunks_view(chunks).len() == chunks.len(),
        forall|i: int| 0 <= i < chunks.len() ==> chunks_view(chunks)[i] == chunks[i]@,
    decreases chunks.len(),
{
    if chunks.len() > 0 {
        lemma_chunks_view(chunks.subrange(1, chunks.len() as int));
        assert forall|i: int| 0 <= i < chunks.len() implies chunks_view(chunks)[i]
            == chunks[i]@ by {
            if i > 0 {
                assert(chunks.subrange(1, chunks.len() as int)[i - 1] == chunks[i]);
            }
        }
    }
}

impl View for ContentProcessingResult {
    type V = ResultV;

    open spec fn view(&self) -> ResultV {
        ResultV {
            success: self.success,
            chunks: chunks_view(self.chunks@),
            metadata: self.metadata@,
            error: opt_string_view(self.error),
        }
    }
}

/// Invariant of a processing result: success exactly when no error is
/// recorded, and every chunk has a non-empty identifier, unique within the
/// result.
pub open spec fn result_wf(r: ResultV) -> bool {
    &&& r.success <==> r.error is None
    &&& forall|i: int| 0 <= i < r.chunks.len() ==> #[trigger] r.chunks[i].id.len() > 0
    &&& forall|i: int, j: int|
        0 <= i < j < r.chunks.len() ==> r.chunks[i].id != r.chunks[j].id
}

/// A request to turn texts into embedding vectors.
#[derive(Debug, PartialEq, Eq)]
pub struct EmbeddingRequest {
    pub input: Vec<String>,
    pub model: Option<String>,
    pub encoding_format: Option<String>,
    pub dimensions: Option<usize>,
}

/// Token-count accounting for one embedding call; a whitespace-split word
/// count over the input texts, documented as an approximation.
#[derive(Debug, Clone, Copy, PartialEq, Eq, Structural)]
pub struct Usage {
    pub prompt_tokens: usize,
    pub total_tokens: usize,
}

/// What can go wrong while processing one file.
#[derive(Debug)]
pub enum ProcessError {
    /// No provider is registered for the given extension or content type.
    UnsupportedFormat,
    /// Malformed or unparsable file content for the claimed format.
    DecodeError(String),
    /// The file could not be read or staged.
    IoError(String),
    /// The embedding capability failed or is uninitialized.
    EmbeddingUnavailable,
}

impl ProcessError {
    /// A human-readable description of the error.
    pub fn message(&self) -> (r: String)
        ensures
            r@ == self.message_spec(),
    {
        match self {
            ProcessError::UnsupportedFormat => "unsupported format".to_owned(),
            ProcessError::DecodeError(m) => "decode error: ".to_owned().concat(m.as_str()),
            ProcessError::IoError(m) => "io error: ".to_owned().concat(m.as_str()),
            ProcessError::EmbeddingUnavailable => "embedding unavailable".to_owned(),
        }
    }

    pub open spec fn message_spec(&self) -> Seq<char> {
        match self {
            ProcessError::UnsupportedFormat => "unsupported format"@,
            ProcessError::DecodeError(m) => "decode error: "@ + m@,
            ProcessError::IoError(m) => "io error: "@ + m@,
            ProcessError::EmbeddingUnavailable => "embedding unavailable"@,
        }
    }
}

} // verus!
