//! Canonical structured rendering of processing results, and its inverse:
//! encoding a result as a structured value and decoding it back yields an
//! equal value. Content types travel as their upper-case wire tags; sizes
//! as decimal number texts.
use crate::models::{chunks_view, jv_view, jv_view_arr, jv_view_obj, lemma_chunks_view,
    lemma_jv_view_arr, lemma_jv_view_obj, meta_dup, opt_string_view, ChunkV, ContentChunk,
    ContentMetadata, ContentProcessingResult, ContentType, JsonV, JsonValue, MetaMap, MetadataV,
    ResultV};
use crate::strutil::{dec_of, digit_char, is_digit, lemma_dec_of_digits, str_eq, u64_to_dec};
use vstd::prelude::*;
use vstd::string::*;

verus! {

// ------------------------------------------------------------------
// content type wire tags
// ------------------------------------------------------------------
/// The wire tag of a content type: its name in upper case.
pub open spec fn wire_name_spec(ct: ContentType) -> Seq<char> {
    match ct {
        ContentType::Pdf => "PDF"@,
        ContentType::Audio => "AUDIO"@,
        ContentType::Video => "VIDEO"@,
        ContentType::Image => "IMAGE"@,
        ContentType::Text => "TEXT"@,
        ContentType::Markdown => "MARKDOWN"@,
        ContentType::StructuredData => "STRUCTUREDDATA"@,
        ContentType::Document => "DOCUMENT"@,
        ContentType::Spreadsheet => "SPREADSHEET"@,
        ContentType::Presentation => "PRESENTATION"@,
        ContentType::Archive => "ARCHIVE"@,
        ContentType::Code => "CODE"@,
        ContentType::Email => "EMAIL"@,
        ContentType::Web => "WEB"@,
        ContentType::Unknown => "UNKNOWN"@,
    }
}

/// The content type a wire tag names, if any.
pub open spec fn ct_of_wire(s: Seq<char>) -> Option<ContentType> {
    if s == "PDF"@ {
        Some(ContentType::Pdf)
    } else if s == "AUDIO"@ {
        Some(ContentType::Audio)
    } else if s == "VIDEO"@ {
        Some(ContentType::Video)
    } else if s == "IMAGE"@ {
        Some(ContentType::Image)
    } else if s == "TEXT"@ {
        Some(ContentType::Text)
    } else if s == "MARKDOWN"@ {
        Some(ContentType::Markdown)
    } else if s == "STRUCTUREDDATA"@ {
        Some(ContentType::StructuredData)
    } else if s == "DOCUMENT"@ {
        Some(ContentType::Document)
    } else if s == "SPREADSHEET"@ {
        Some(ContentType::Spreadsheet)
    } else if s == "PRESENTATION"@ {
        Some(ContentType::Presentation)
    } else if s == "ARCHIVE"@ {
        Some(ContentType::Archive)
    } else if s == "CODE"@ {
        Some(ContentType::Code)
    } else if s == "EMAIL"@ {
        Some(ContentType::Email)
    } else if s == "WEB"@ {
        Some(ContentType::Web)
    } else if s == "UNKNOWN"@ {
        Some(ContentType::Unknown)
    } else {
        None
    }
}

/// Reading a wire tag back gives the content type it was written for.
pub proof fn lemma_wire_name_round_trip(ct: ContentType)
    ensures
        ct_of_wire(wire_name_spec(ct)) == Some(ct),
{
    reveal_strlit("PDF");
    reveal_strlit("AUDIO");
    reveal_strlit("VIDEO");
    reveal_strlit("IMAGE");
    reveal_strlit("TEXT");
    reveal_strlit("MARKDOWN");
    reveal_strlit("STRUCTUREDDATA");
    reveal_strlit("DOCUMENT");
    reveal_strlit("SPREADSHEET");
    reveal_strlit("PRESENTATION");
    reveal_strlit("ARCHIVE");
    reveal_strlit("CODE");
    reveal_strlit("EMAIL");
    reveal_strlit("WEB");
    reveal_strlit("UNKNOWN");
    assert("PDF"@.len() == 3 && "PDF"@[0] == 'P');
    assert("AUDIO"@.len() == 5 && "AUDIO"@[0] == 'A');
    assert("VIDEO"@.len() == 5 && "VIDEO"@[0] == 'V');
    assert("IMAGE"@.len() == 5 && "IMAGE"@[0] == 'I');
    assert("TEXT"@.len() == 4 && "TEXT"@[0] == 'T');
    assert("MARKDOWN"@.len() == 8 && "MARKDOWN"@[0] == 'M');
    assert("STRUCTUREDDATA"@.len() == 14 && "STRUCTUREDDATA"@[0] == 'S');
    assert("DOCUMENT"@.len() == 8 && "DOCUMENT"@[0] == 'D');
    assert("SPREADSHEET"@.len() == 11 && "SPREADSHEET"@[0] == 'S');
    assert("PRESENTATION"@.len() == 12 && "PRESENTATION"@[0] == 'P');
    assert("ARCHIVE"@.len() == 7 && "ARCHIVE"@[0] == 'A');
    assert("CODE"@.len() == 4 && "CODE"@[0] == 'C');
    assert("EMAIL"@.len() == 5 && "EMAIL"@[0] == 'E');
    assert("WEB"@.len() == 3 && "WEB"@[0] == 'W');
    assert("UNKNOWN"@.len() == 7 && "UNKNOWN"@[0] == 'U');
    match ct {
        ContentType::Pdf => {
            assert(ct_of_wire("PDF"@) == Some(ContentType::Pdf));
        },
        ContentType::Audio => {
            assert(ct_of_wire("AUDIO"@) == Some(ContentType::Audio));
        },
        ContentType::Video => {
            assert(ct_of_wire("VIDEO"@) == Some(ContentType::Video));
        },
        ContentType::Image => {
            assert(ct_of_wire("IMAGE"@) == Some(ContentType::Image));
        },
        ContentType::Text => {
            assert(ct_of_wire("TEXT"@) == Some(ContentType::Text));
        },
        ContentType::Markdown => {
            assert(ct_of_wire("MARKDOWN"@) == Some(ContentType::Markdown));
        },
        ContentType::StructuredData => {
            assert(ct_of_wire("STRUCTUREDDATA"@) == Some(ContentType::StructuredData));
        },
        ContentType::Document => {
            assert(ct_of_wire("DOCUMENT"@) == Some(ContentType::Document));
        },
        ContentType::Spreadsheet => {
            assert(ct_of_wire("SPREADSHEET"@) == Some(ContentType::Spreadsheet));
        },
        ContentType::Presentation => {
            assert(ct_of_wire("PRESENTATION"@) == Some(ContentType::Presentation));
        },
        ContentType::Archive => {
            assert(ct_of_wire("ARCHIVE"@) == Some(ContentType::Archive));
        },
        ContentType::Code => {
            assert(ct_of_wire("CODE"@) == Some(ContentType::Code));
        },
        ContentType::Email => {
            assert(ct_of_wire("EMAIL"@) == Some(ContentType::Email));
        },
        ContentType::Web => {
            assert(ct_of_wire("WEB"@) == Some(ContentType::Web));
        },
        ContentType::Unknown => {
            assert(ct_of_wire("UNKNOWN"@) == Some(ContentType::Unknown));
        },
    }
}

impl ContentType {
    /// The serialization tag of this content type: its name in upper case.
    pub fn wire_name(&self) -> (r: String)
        ensures
            r@ == wire_name_spec(*self),
    {
        match self {
            ContentType::Pdf => "PDF".to_owned(),
            ContentType::Audio => "AUDIO".to_owned(),
            ContentType::Video => "VIDEO".to_owned(),
            ContentType::Image => "IMAGE".to_owned(),
            ContentType::Text => "TEXT".to_owned(),
            ContentType::Markdown => "MARKDOWN".to_owned(),
            ContentType::StructuredData => "STRUCTUREDDATA".to_owned(),
            ContentType::Document => "DOCUMENT".to_owned(),
            ContentType::Spreadsheet => "SPREADSHEET".to_owned(),
            ContentType::Presentation => "PRESENTATION".to_owned(),
            ContentType::Archive => "ARCHIVE".to_owned(),
            ContentType::Code => "CODE".to_owned(),
            ContentType::Email => "EMAIL".to_owned(),
            ContentType::Web => "WEB".to_owned(),
            ContentType::Unknown => "UNKNOWN".to_owned(),
        }
    }

    /// The content type a serialization tag names, if any.
    pub fn from_wire_name(s: &str) -> (r: Option<ContentType>)
        ensures
            r == ct_of_wire(s@),
    {
        if str_eq(s, "PDF") {
            Some(ContentType::Pdf)
        } else if str_eq(s, "AUDIO") {
            Some(ContentType::Audio)
        } else if str_eq(s, "VIDEO") {
            Some(ContentType::Video)
        } else if str_eq(s, "IMAGE") {
            Some(ContentType::Image)
        } else if str_eq(s, "TEXT") {
            Some(ContentType::Text)
        } else if str_eq(s, "MARKDOWN") {
            Some(ContentType::Markdown)
        } else if str_eq(s, "STRUCTUREDDATA") {
            Some(ContentType::StructuredData)
        } else if str_eq(s, "DOCUMENT") {
            Some(ContentType::Document)
        } else if str_eq(s, "SPREADSHEET") {
            Some(ContentType::Spreadsheet)
        } else if str_eq(s, "PRESENTATION") {
            Some(ContentType::Presentation)
        } else if str_eq(s, "ARCHIVE") {
            Some(ContentType::Archive)
        } else if str_eq(s, "CODE") {
            Some(ContentType::Code)
        } else if str_eq(s, "EMAIL") {
            Some(ContentType::Email)
        } else if str_eq(s, "WEB") {
            Some(ContentType::Web)
        } else if str_eq(s, "UNKNOWN") {
            Some(ContentType::Unknown)
        } else {
            None
        }
    }
}

// ------------------------------------------------------------------
// decimal number texts
// ------------------------------------------------------------------
pub open spec fn pow10(k: nat) -> nat
    decreases k,
{
    if k == 0 {
        1
    } else {
        10 * pow10((k - 1) as nat)
    }
}

pub open spec fn digit_val(c: char) -> nat {
    if c == '0' {
        0
    } else if c == '1' {
        1
    } else if c == '2' {
        2
    } else if c == '3' {
        3
    } else if c == '4' {
        4
    } else if c == '5' {
        5
    } else if c == '6' {
        6
    } else if c == '7' {
        7
    } else if c == '8' {
        8
    } else {
        9
    }
}

/// The number a digit string denotes.
pub open spec fn dec_val(s: Seq<char>) -> nat
    decreases s.len(),
{
    if s.len() == 0 {
        0
    } else {
        dec_val(s.subrange(0, s.len() - 1)) * 10 + digit_val(s.last())
    }
}

/// A canonical decimal number text: non-empty, at most twenty digits, all
/// decimal digits, no leading zero.
pub open spec fn valid_dec(s: Seq<char>) -> bool {
    &&& 1 <= s.len() <= 20
    &&& forall|i: int| 0 <= i < s.len() ==> is_digit(#[trigger] s[i])
    &&& (s.len() == 1 || s[0] != '0')
}

proof fn lemma_digit_val_char(d: nat)
    requires
        d < 10,
    ensures
        digit_val(digit_char(d)) == d,
{
}

/// Reading a decimal rendering back gives the number it was written for.
pub proof fn lemma_dec_val_of(n: nat)
    ensures
        dec_val(dec_of(n)) == n,
    decreases n,
{
    if n < 10 {
        assert(dec_of(n) == seq![digit_char(n)]);
        assert(dec_of(n).subrange(0, 0) =~= Seq::<char>::empty());
        assert(dec_val(Seq::<char>::empty()) == 0);
        assert(dec_of(n).last() == digit_char(n));
        lemma_digit_val_char(n);
    } else {
        lemma_dec_val_of(n / 10);
        assert(dec_of(n) == dec_of(n / 10) + seq![digit_char(n % 10)]);
        assert(dec_of(n).len() == dec_of(n / 10).len() + 1);
        assert(dec_of(n).subrange(0, dec_of(n).len() - 1) =~= dec_of(n / 10));
        assert(dec_of(n).last() == digit_char(n % 10));
        lemma_digit_val_char(n % 10);
        assert(dec_val(dec_of(n)) == (n / 10) * 10 + n % 10);
    }
}

/// A decimal rendering never starts with a superfluous zero.
proof fn lemma_dec_of_no_leading_zero(n: nat)
    ensures
        dec_of(n).len() > 1 ==> dec_of(n)[0] != '0',
    decreases n,
{
    if n >= 10 {
        lemma_dec_of_no_leading_zero(n / 10);
        assert(dec_of(n) == dec_of(n / 10) + seq![digit_char(n % 10)]);
        assert(dec_of(n)[0] == dec_of(n / 10)[0]);
        if dec_of(n / 10).len() == 1 {
            assert(n / 10 >= 1);
            if n / 10 < 10 {
                assert(dec_of(n / 10) == seq![digit_char(n / 10)]);
                assert(digit_char(n / 10) != '0');
            } else {
                lemma_dec_of_last_pub(n / 10);
            }
        }
    }
}

proof fn lemma_dec_of_last_pub(n: nat)
    requires
        n >= 10,
    ensures
        dec_of(n).len() >= 2,
{
    lemma_dec_of_digits(n / 10);
    assert(dec_of(n) == dec_of(n / 10) + seq![digit_char(n % 10)]);
}

proof fn lemma_pow10_mono(a: nat, b: nat)
    requires
        a <= b,
    ensures
        pow10(a) <= pow10(b),
        pow10(a) >= 1,
    decreases b,
{
    if b > 0 {
        if a == b {
            lemma_pow10_mono((a - 1) as nat, (b - 1) as nat);
            assert(pow10(b) == 10 * pow10((b - 1) as nat));
            assert(pow10(a) == pow10(b));
        } else {
            lemma_pow10_mono(a, (b - 1) as nat);
            assert(pow10(b) == 10 * pow10((b - 1) as nat));
        }
    }
}

/// A decimal rendering is as short as its number is small.
proof fn lemma_dec_of_len(n: nat, k: nat)
    requires
        k >= 1,
        n < pow10(k),
    ensures
        dec_of(n).len() <= k,
    decreases n,
{
    if n < 10 {
    } else {
        assert(pow10(k) == 10 * pow10((k - 1) as nat));
        if k == 1 {
            assert(pow10(1nat) == 10);
            assert(false);
        }
        assert(n / 10 < pow10((k - 1) as nat));
        lemma_dec_of_len(n / 10, (k - 1) as nat);
        assert(dec_of(n) == dec_of(n / 10) + seq![digit_char(n % 10)]);
    }
}

proof fn lemma_pow10_values()
    ensures
        pow10(20) == 0x56BC75E2D63100000,
        pow10(19) == 0x8AC7230489E80000,
{
    assert(pow10(0) == 1);
    assert(pow10(1) == 10);
    assert(pow10(2) == 100);
    assert(pow10(3) == 1000);
    assert(pow10(4) == 10000);
    assert(pow10(5) == 100000);
    assert(pow10(6) == 1000000);
    assert(pow10(7) == 10000000);
    assert(pow10(8) == 100000000);
    assert(pow10(9) == 1000000000);
    assert(pow10(10) == 10000000000);
    assert(pow10(11) == 100000000000);
    assert(pow10(12) == 1000000000000);
    assert(pow10(13) == 10000000000000);
    assert(pow10(14) == 100000000000000);
    assert(pow10(15) == 1000000000000000);
    assert(pow10(16) == 10000000000000000);
    assert(pow10(17) == 100000000000000000);
    assert(pow10(18) == 1000000000000000000);
    assert(pow10(19) == 10000000000000000000);
    assert(pow10(20) == 100000000000000000000);
}

/// The rendering of a machine-sized number is a canonical number text.
pub proof fn lemma_dec_of_valid(n: u64)
    ensures
        valid_dec(dec_of(n as nat)),
        dec_val(dec_of(n as nat)) == n as nat,
{
    lemma_dec_of_digits(n as nat);
    lemma_dec_of_no_leading_zero(n as nat);
    lemma_dec_val_of(n as nat);
    lemma_pow10_values();
    lemma_dec_of_len(n as nat, 20);
}

/// Parses a canonical decimal number text into a machine-sized number;
/// `None` when the text is not canonical or the number does not fit.
pub fn parse_u64_dec(s: &str) -> (r: Option<u64>)
    ensures
        valid_dec(s@) && dec_val(s@) <= u64::MAX as nat ==> (r matches Some(n) && n as nat
            == dec_val(s@)),
        !(valid_dec(s@) && dec_val(s@) <= u64::MAX as nat) ==> r is None,
{
    let n = s.unicode_len();
    if n == 0 || n > 20 {
        return None;
    }
    if n > 1 && s.get_char(0) == '0' {
        return None;
    }
    proof {
        lemma_pow10_values();
        assert(s@.subrange(0, 0) =~= Seq::<char>::empty());
    }
    let mut value: u128 = 0;
    let mut i: usize = 0;
    while i < n
        invariant
            n == s@.len(),
            1 <= n <= 20,
            i <= n,
            forall|j: int| 0 <= j < i as int ==> is_digit(#[trigger] s@[j]),
            value as nat == dec_val(s@.subrange(0, i as int)),
            (value as nat) < pow10(i as nat),
            pow10(20) == 0x56BC75E2D63100000,
        decreases n - i,
    {
        let c = s.get_char(i);
        let d: u128 = match c {
            '0' => 0,
            '1' => 1,
            '2' => 2,
            '3' => 3,
            '4' => 4,
            '5' => 5,
            '6' => 6,
            '7' => 7,
            '8' => 8,
            '9' => 9,
            _ => {
                return None;
            },
        };
        proof {
            assert(d as nat == digit_val(s@[i as int]));
            lemma_pow10_mono(i as nat, 19);
            lemma_pow10_values();
            assert((value as nat) * 10 + 9 < pow10((i + 1) as nat)) by {
                assert(pow10((i + 1) as nat) == 10 * pow10(i as nat));
            }
            let pre = s@.subrange(0, i as int + 1);
            assert(pre.subrange(0, pre.len() - 1) =~= s@.subrange(0, i as int));
            assert(pre.last() == s@[i as int]);
        }
        value = value * 10 + d;
        i = i + 1;
    }
    proof {
        assert(s@.subrange(0, n as int) =~= s@);
        assert(valid_dec(s@));
    }
    if value > (u64::MAX as u128) {
        return None;
    }
    Some(value as u64)
}

// ------------------------------------------------------------------
// encoding
// ------------------------------------------------------------------
/// An optional text encodes as the text or as null.
pub open spec fn enc_opt_str(o: Option<Seq<char>>) -> JsonV {
    match o {
        Option::None => JsonV::Null,
        Option::Some(s) => JsonV::Str(s),
    }
}

/// An optional size encodes as its decimal number text or as null.
pub open spec fn enc_opt_u64(o: Option<u64>) -> JsonV {
    match o {
        Option::None => JsonV::Null,
        Option::Some(n) => JsonV::Num(dec_of(n as nat)),
    }
}

/// The structured encoding of one chunk.
pub open spec fn enc_chunk(c: ChunkV) -> JsonV {
    JsonV::Obj(
        seq![
            ("id"@, JsonV::Str(c.id)),
            ("content"@, JsonV::Str(c.content)),
            ("metadata"@, JsonV::Obj(c.metadata)),
        ],
    )
}

pub open spec fn enc_chunks(cs: Seq<ChunkV>) -> Seq<JsonV>
    decreases cs.len(),
{
    if cs.len() == 0 {
        Seq::empty()
    } else {
        seq![enc_chunk(cs[0])] + enc_chunks(cs.subrange(1, cs.len() as int))
    }
}

proof fn lemma_enc_chunks(cs: Seq<ChunkV>)
    ensures
        enc_chunks(cs).len() == cs.len(),
        forall|i: int| 0 <= i < cs.len() ==> enc_chunks(cs)[i] == enc_chunk(cs[i]),
    decreases cs.len(),
{
    if cs.len() > 0 {
        lemma_enc_chunks(cs.subrange(1, cs.len() as int));
        assert forall|i: int| 0 <= i < cs.len() implies enc_chunks(cs)[i] == enc_chunk(cs[i]) by {
            if i > 0 {
                assert(cs.subrange(1, cs.len() as int)[i - 1] == cs[i]);
            }
        }
    }
}

/// The structured encoding of one metadata record.
pub open spec fn enc_metadata(m: MetadataV) -> JsonV {
    JsonV::Obj(
        seq![
            ("content_type"@, JsonV::Str(wire_name_spec(m.content_type))),
            ("file_name"@, enc_opt_str(m.file_name)),
            ("file_size"@, enc_opt_u64(m.file_size)),
            ("created_at"@, enc_opt_str(m.created_at)),
            ("modified_at"@, enc_opt_str(m.modified_at)),
            ("author"@, enc_opt_str(m.author)),
            ("title"@, enc_opt_str(m.title)),
            ("language"@, enc_opt_str(m.language)),
            ("additional"@, JsonV::Obj(m.additional)),
        ],
    )
}

/// The structured encoding of one processing result: exactly the
/// `{success, chunks, metadata, error}` shape the engine reports.
pub open spec fn enc_result(r: ResultV) -> JsonV {
    JsonV::Obj(
        seq![
            ("success"@, JsonV::Bool(r.success)),
            ("chunks"@, JsonV::Arr(enc_chunks(r.chunks))),
            ("metadata"@, enc_metadata(r.metadata)),
            ("error"@, enc_opt_str(r.error)),
        ],
    )
}

// ------------------------------------------------------------------
// decoding
// ------------------------------------------------------------------
pub open spec fn dec_opt_str(v: JsonV) -> Option<Option<Seq<char>>> {
    match v {
        JsonV::Null => Some(Option::None),
        JsonV::Str(s) => Some(Option::Some(s)),
        _ => None,
    }
}

pub open spec fn dec_opt_u64(v: JsonV) -> Option<Option<u64>> {
    match v {
        JsonV::Null => Some(Option::None),
        JsonV::Num(s) => if valid_dec(s) && dec_val(s) <= u64::MAX as nat {
            Some(Option::Some(dec_val(s) as u64))
        } else {
            None
        },
        _ => None,
    }
}

/// Decodes the canonical encoding of one chunk.
pub open spec fn dec_chunk(v: JsonV) -> Option<ChunkV> {
    match v {
        JsonV::Obj(es) => {
            if es.len() == 3 && es[0].0 == "id"@ && es[1].0 == "content"@ && es[2].0
                == "metadata"@ {
                match (es[0].1, es[1].1, es[2].1) {
                    (JsonV::Str(id), JsonV::Str(content), JsonV::Obj(metadata)) => Some(
                        ChunkV { id, content, metadata },
                    ),
                    _ => None,
                }
            } else {
                None
            }
        },
        _ => None,
    }
}

pub open spec fn dec_chunks(vs: Seq<JsonV>) -> Option<Seq<ChunkV>>
    decreases vs.len(),
{
    if vs.len() == 0 {
        Some(Seq::empty())
    } else {
        match dec_chunk(vs[0]) {
            None => None,
            Some(c) => match dec_chunks(vs.subrange(1, vs.len() as int)) {
                None => None,
                Some(rest) => Some(seq![c] + rest),
            },
        }
    }
}

/// Decodes the canonical encoding of one metadata record.
pub open spec fn dec_metadata(v: JsonV) -> Option<MetadataV> {
    match v {
        JsonV::Obj(es) => {
            if es.len() == 9 && es[0].0 == "content_type"@ && es[1].0 == "file_name"@ && es[2].0
                == "file_size"@ && es[3].0 == "created_at"@ && es[4].0 == "modified_at"@
                && es[5].0 == "author"@ && es[6].0 == "title"@ && es[7].0 == "language"@
                && es[8].0 == "additional"@ {
                match (es[0].1, es[8].1) {
                    (JsonV::Str(ctw), JsonV::Obj(additional)) => {
                        match (
                            ct_of_wire(ctw),
                            dec_opt_str(es[1].1),
                            dec_opt_u64(es[2].1),
                            dec_opt_str(es[3].1),
                            dec_opt_str(es[4].1),
                            dec_opt_str(es[5].1),
                            dec_opt_str(es[6].1),
                            dec_opt_str(es[7].1),
                        ) {
                            (
                                Some(content_type),
                                Some(file_name),
                                Some(file_size),
                                Some(created_at),
                                Some(modified_at),
                                Some(author),
                                Some(title),
                                Some(language),
                            ) => Some(
                                MetadataV {
                                    content_type,
                                    file_name,
                                    file_size,
                                    created_at,
                                    modified_at,
                                    author,
                                    title,
                                    language,
                                    additional,
                                },
                            ),
                            _ => None,
                        }
                    },
                    _ => None,
                }
            } else {
                None
            }
        },
        _ => None,
    }
}

/// Decodes the canonical encoding of one processing result.
pub open spec fn dec_result(v: JsonV) -> Option<ResultV> {
    match v {
        JsonV::Obj(es) => {
            if es.len() == 4 && es[0].0 == "success"@ && es[1].0 == "chunks"@ && es[2].0
                == "metadata"@ && es[3].0 == "error"@ {
                match (es[0].1, es[1].1) {
                    (JsonV::Bool(success), JsonV::Arr(chunk_vs)) => {
                        match (dec_chunks(chunk_vs), dec_metadata(es[2].1), dec_opt_str(es[3].1)) {
                            (Some(chunks), Some(metadata), Some(error)) => Some(
                                ResultV { success, chunks, metadata, error },
                            ),
                            _ => None,
                        }
                    },
                    _ => None,
                }
            } else {
                None
            }
        },
        _ => None,
    }
}

// ------------------------------------------------------------------
// the round trip
// ------------------------------------------------------------------
proof fn lemma_opt_str_round_trip(o: Option<Seq<char>>)
    ensures
        dec_opt_str(enc_opt_str(o)) == Some(o),
{
}

proof fn lemma_opt_u64_round_trip(o: Option<u64>)
    ensures
        dec_opt_u64(enc_opt_u64(o)) == Some(o),
{
    match o {
        Option::None => {},
        Option::Some(n) => {
            lemma_dec_of_valid(n);
        },
    }
}

proof fn lemma_chunk_round_trip(c: ChunkV)
    ensures
        dec_chunk(enc_chunk(c)) == Some(c),
{
}

proof fn lemma_chunks_round_trip(cs: Seq<ChunkV>)
    ensures
        dec_chunks(enc_chunks(cs)) == Some(cs),
    decreases cs.len(),
{
    if cs.len() == 0 {
        assert(dec_chunks(enc_chunks(cs)) == Some(Seq::<ChunkV>::empty()));
        assert(cs =~= Seq::<ChunkV>::empty());
    } else {
        let rest = cs.subrange(1, cs.len() as int);
        lemma_chunks_round_trip(rest);
        lemma_chunk_round_trip(cs[0]);
        let evs = enc_chunks(cs);
        assert(evs[0] == enc_chunk(cs[0]));
        assert(evs.subrange(1, evs.len() as int) =~= enc_chunks(rest));
        assert(dec_chunks(evs) == Some(seq![cs[0]] + rest));
        assert(seq![cs[0]] + rest =~= cs);
    }
}

proof fn lemma_metadata_round_trip(m: MetadataV)
    ensures
        dec_metadata(enc_metadata(m)) == Some(m),
{
    lemma_wire_name_round_trip(m.content_type);
    lemma_opt_u64_round_trip(m.file_size);
}

/// Round trip: decoding the encoding of any processing result yields that
/// result back, exactly.
pub proof fn lemma_result_round_trip(r: ResultV)
    ensures
        dec_result(enc_result(r)) == Some(r),
{
    lemma_chunks_round_trip(r.chunks);
    lemma_metadata_round_trip(r.metadata);
}

} // verus!

verus! {

proof fn lemma_dec_chunks_index(vs: Seq<JsonV>)
    ensures
        dec_chunks(vs) matches Some(cs) ==> cs.len() == vs.len() && forall|i: int|
            0 <= i < vs.len() ==> dec_chunk(#[trigger] vs[i]) == Some(cs[i]),
    decreases vs.len(),
{
    if vs.len() > 0 {
        lemma_dec_chunks_index(vs.subrange(1, vs.len() as int));
        if dec_chunks(vs) is Some {
            let cs = dec_chunks(vs)->Some_0;
            let rest = vs.subrange(1, vs.len() as int);
            assert forall|i: int| 0 <= i < vs.len() implies dec_chunk(#[trigger] vs[i]) == Some(
                cs[i],
            ) by {
                if i > 0 {
                    assert(rest[i - 1] == vs[i]);
                    let restc = dec_chunks(rest)->Some_0;
                    assert(cs == seq![dec_chunk(vs[0])->Some_0] + restc);
                    assert(cs[i] == restc[i - 1]);
                }
            }
        }
    }
}

proof fn lemma_dec_chunks_snoc(vs: Seq<JsonV>, x: JsonV)
    ensures
        dec_chunks(vs.push(x)) == (match dec_chunks(vs) {
            Option::Some(cs) => match dec_chunk(x) {
                Option::Some(c) => Option::Some(cs.push(c)),
                Option::None => Option::<Seq<ChunkV>>::None,
            },
            Option::None => Option::<Seq<ChunkV>>::None,
        }),
    decreases vs.len(),
{
    if vs.len() == 0 {
        assert(vs.push(x)[0] == x);
        assert(vs.push(x).len() == 1);
        assert(vs.push(x).subrange(1, 1) =~= Seq::<JsonV>::empty());
        assert(dec_chunks(vs.push(x).subrange(1, 1)) == dec_chunks(Seq::<JsonV>::empty()));
        assert(dec_chunks(Seq::<JsonV>::empty()) == Some(Seq::<ChunkV>::empty()));
        assert(dec_chunks(vs) == Some(Seq::<ChunkV>::empty()));
        if dec_chunk(x) is Some {
            let c = dec_chunk(x)->Some_0;
            assert(dec_chunks(vs.push(x)) == Some(seq![c] + Seq::<ChunkV>::empty()));
            assert(seq![c] + Seq::<ChunkV>::empty() =~= Seq::<ChunkV>::empty().push(c));
        }
    } else {
        assert(vs.push(x)[0] == vs[0]);
        assert(vs.push(x).subrange(1, vs.len() as int + 1) =~= vs.subrange(
            1,
            vs.len() as int,
        ).push(x));
        lemma_dec_chunks_snoc(vs.subrange(1, vs.len() as int), x);
        if dec_chunk(vs[0]) is Some {
            let c0 = dec_chunk(vs[0])->Some_0;
            let rest = vs.subrange(1, vs.len() as int);
            if dec_chunks(rest) is Some {
                let cs = dec_chunks(rest)->Some_0;
                if dec_chunk(x) is Some {
                    let c = dec_chunk(x)->Some_0;
                    assert(dec_chunks(vs.push(x)) == Some(seq![c0] + cs.push(c)));
                    assert(dec_chunks(vs) == Some(seq![c0] + cs));
                    assert(seq![c0] + cs.push(c) =~= (seq![c0] + cs).push(c));
                }
            }
        }
    }
}

fn enc_opt_str_exec(o: &Option<String>) -> (r: JsonValue)
    ensures
        r@ == enc_opt_str(opt_string_view(*o)),
{
    match o {
        Option::None => JsonValue::Null,
        Option::Some(s) => JsonValue::Str(s.clone()),
    }
}

fn dec_opt_str_exec(v: &JsonValue) -> (r: Option<Option<String>>)
    ensures
        dec_opt_str(v@) matches Some(o) ==> (r matches Some(ro) && opt_string_view(ro) == o),
        dec_opt_str(v@) is None ==> r is None,
{
    match v {
        JsonValue::Null => Some(Option::None),
        JsonValue::Str(s) => Some(Option::Some(s.clone())),
        _ => None,
    }
}

fn enc_opt_u64_exec(o: &Option<u64>) -> (r: JsonValue)
    ensures
        r@ == enc_opt_u64(*o),
{
    match o {
        Option::None => JsonValue::Null,
        Option::Some(n) => JsonValue::Num(u64_to_dec(*n)),
    }
}

fn dec_opt_u64_exec(v: &JsonValue) -> (r: Option<Option<u64>>)
    ensures
        r == dec_opt_u64(v@),
{
    match v {
        JsonValue::Null => Some(Option::None),
        JsonValue::Num(s) => match parse_u64_dec(s.as_str()) {
            Option::Some(n) => Some(Option::Some(n)),
            Option::None => None,
        },
        _ => None,
    }
}

/// Encodes one chunk as a structured value.
pub fn chunk_to_json(c: &ContentChunk) -> (r: JsonValue)
    ensures
        r@ == enc_chunk(c@),
{
    let mut entries: MetaMap = Vec::new();
    entries.push(("id".to_owned(), JsonValue::Str(c.id.clone())));
    entries.push(("content".to_owned(), JsonValue::Str(c.content.clone())));
    entries.push(("metadata".to_owned(), JsonValue::Obj(meta_dup(&c.metadata))));
    let r = JsonValue::Obj(entries);
    proof {
        lemma_jv_view_obj(r->Obj_0@);
        assert(jv_view_obj(r->Obj_0@) =~= enc_chunk(c@)->Obj_0);
    }
    r
}

/// Decodes the canonical encoding of one chunk.
pub fn chunk_from_json(v: &JsonValue) -> (r: Option<ContentChunk>)
    ensures
        dec_chunk(v@) matches Some(cv) ==> (r matches Some(c) && c@ == cv),
        dec_chunk(v@) is None ==> r is None,
{
    match v {
        JsonValue::Obj(entries) => {
            proof {
                lemma_jv_view_obj(entries@);
            }
            if entries.len() != 3 {
                return None;
            }
            if !str_eq(entries[0].0.as_str(), "id") || !str_eq(entries[1].0.as_str(), "content")
                || !str_eq(entries[2].0.as_str(), "metadata") {
                return None;
            }
            match (&entries[0].1, &entries[1].1, &entries[2].1) {
                (JsonValue::Str(id), JsonValue::Str(content), JsonValue::Obj(metadata)) => {
                    Some(
                        ContentChunk {
                            id: id.clone(),
                            content: content.clone(),
                            metadata: meta_dup(metadata),
                        },
                    )
                },
                _ => None,
            }
        },
        _ => None,
    }
}

/// Encodes one metadata record as a structured value.
pub fn metadata_to_json(m: &ContentMetadata) -> (r: JsonValue)
    ensures
        r@ == enc_metadata(m@),
{
    let mut entries: MetaMap = Vec::new();
    entries.push(("content_type".to_owned(), JsonValue::Str(m.content_type.wire_name())));
    entries.push(("file_name".to_owned(), enc_opt_str_exec(&m.file_name)));
    entries.push(("file_size".to_owned(), enc_opt_u64_exec(&m.file_size)));
    entries.push(("created_at".to_owned(), enc_opt_str_exec(&m.created_at)));
    entries.push(("modified_at".to_owned(), enc_opt_str_exec(&m.modified_at)));
    entries.push(("author".to_owned(), enc_opt_str_exec(&m.author)));
    entries.push(("title".to_owned(), enc_opt_str_exec(&m.title)));
    entries.push(("language".to_owned(), enc_opt_str_exec(&m.language)));
    entries.push(("additional".to_owned(), JsonValue::Obj(meta_dup(&m.additional))));
    let r = JsonValue::Obj(entries);
    proof {
        lemma_jv_view_obj(r->Obj_0@);
        assert(jv_view_obj(r->Obj_0@) =~= enc_metadata(m@)->Obj_0);
    }
    r
}

/// Decodes the canonical encoding of one metadata record.
pub fn metadata_from_json(v: &JsonValue) -> (r: Option<ContentMetadata>)
    ensures
        dec_metadata(v@) matches Some(mv) ==> (r matches Some(m) && m@ == mv),
        dec_metadata(v@) is None ==> r is None,
{
    match v {
        JsonValue::Obj(entries) => {
            proof {
                lemma_jv_view_obj(entries@);
            }
            if entries.len() != 9 {
                return None;
            }
            if !str_eq(entries[0].0.as_str(), "content_type") || !str_eq(
                entries[1].0.as_str(),
                "file_name",
            ) || !str_eq(entries[2].0.as_str(), "file_size") || !str_eq(
                entries[3].0.as_str(),
                "created_at",
            ) || !str_eq(entries[4].0.as_str(), "modified_at") || !str_eq(
                entries[5].0.as_str(),
                "author",
            ) || !str_eq(entries[6].0.as_str(), "title") || !str_eq(
                entries[7].0.as_str(),
                "language",
            ) || !str_eq(entries[8].0.as_str(), "additional") {
                return None;
            }
            let ctw = match &entries[0].1 {
                JsonValue::Str(s) => s,
                _ => {
                    return None;
                },
            };
            let additional = match &entries[8].1 {
                JsonValue::Obj(o) => meta_dup(o),
                _ => {
                    return None;
                },
            };
            let content_type = match ContentType::from_wire_name(ctw.as_str()) {
                Option::Some(ct) => ct,
                Option::None => {
                    return None;
                },
            };
            let file_name = match dec_opt_str_exec(&entries[1].1) {
                Option::Some(o) => o,
                Option::None => {
                    return None;
                },
            };
            let file_size = match dec_opt_u64_exec(&entries[2].1) {
                Option::Some(o) => o,
                Option::None => {
                    return None;
                },
            };
            let created_at = match dec_opt_str_exec(&entries[3].1) {
                Option::Some(o) => o,
                Option::None => {
                    return None;
                },
            };
            let modified_at = match dec_opt_str_exec(&entries[4].1) {
                Option::Some(o) => o,
                Option::None => {
                    return None;
                },
            };
            let author = match dec_opt_str_exec(&entries[5].1) {
                Option::Some(o) => o,
                Option::None => {
                    return None;
                },
            };
            let title = match dec_opt_str_exec(&entries[6].1) {
                Option::Some(o) => o,
                Option::None => {
                    return None;
                },
            };
            let language = match dec_opt_str_exec(&entries[7].1) {
                Option::Some(o) => o,
                Option::None => {
                    return None;
                },
            };
            Some(
                ContentMetadata {
                    content_type,
                    file_name,
                    file_size,
                    created_at,
                    modified_at,
                    author,
                    title,
                    language,
                    additional,
                },
            )
        },
        _ => None,
    }
}

/// Encodes one processing result as a structured value, exactly the
/// `{success, chunks, metadata, error}` shape the engine reports.
pub fn result_to_json(r: &ContentProcessingResult) -> (out: JsonValue)
    ensures
        out@ == enc_result(r@),
{
    let mut chunk_vals: Vec<JsonValue> = Vec::new();
    let ghost cv = chunks_view(r.chunks@);
    proof {
        lemma_chunks_view(r.chunks@);
        lemma_enc_chunks(cv);
    }
    let mut i: usize = 0;
    while i < r.chunks.len()
        invariant
            cv == chunks_view(r.chunks@),
            cv.len() == r.chunks@.len(),
            forall|j: int| 0 <= j < r.chunks@.len() ==> #[trigger] cv[j] == r.chunks@[j]@,
            enc_chunks(cv).len() == cv.len(),
            forall|j: int| 0 <= j < cv.len() ==> #[trigger] enc_chunks(cv)[j] == enc_chunk(cv[j]),
            i <= r.chunks@.len(),
            chunk_vals@.len() == i as int,
            forall|j: int|
                0 <= j < i as int ==> #[trigger] chunk_vals@[j]@ == enc_chunks(cv)[j],
        decreases r.chunks@.len() - i,
    {
        let ev = chunk_to_json(&r.chunks[i]);
        chunk_vals.push(ev);
        i = i + 1;
    }
    let ghost cvs = chunk_vals@;
    proof {
        lemma_jv_view_arr(cvs);
        assert forall|j: int| 0 <= j < cvs.len() implies jv_view_arr(cvs)[j] == enc_chunks(
            cv,
        )[j] by {
            assert(jv_view_arr(cvs)[j] == jv_view(cvs[j]));
            assert(cvs[j]@ == enc_chunks(cv)[j]);
        }
        assert(jv_view_arr(cvs) =~= enc_chunks(cv));
    }
    let mut entries: MetaMap = Vec::new();
    entries.push(("success".to_owned(), JsonValue::Bool(r.success)));
    entries.push(("chunks".to_owned(), JsonValue::Arr(chunk_vals)));
    entries.push(("metadata".to_owned(), metadata_to_json(&r.metadata)));
    entries.push(("error".to_owned(), enc_opt_str_exec(&r.error)));
    let out = JsonValue::Obj(entries);
    proof {
        assert(entries@[1].1->Arr_0@ == cvs);
        lemma_jv_view_obj(out->Obj_0@);
        assert(jv_view_obj(out->Obj_0@) =~= enc_result(r@)->Obj_0);
    }
    out
}

/// Decodes the canonical encoding of one processing result.
pub fn result_from_json(v: &JsonValue) -> (r: Option<ContentProcessingResult>)
    ensures
        dec_result(v@) matches Some(rv) ==> (r matches Some(res) && res@ == rv),
        dec_result(v@) is None ==> r is None,
{
    match v {
        JsonValue::Obj(entries) => {
            proof {
                lemma_jv_view_obj(entries@);
            }
            if entries.len() != 4 {
                return None;
            }
            if !str_eq(entries[0].0.as_str(), "success") || !str_eq(
                entries[1].0.as_str(),
                "chunks",
            ) || !str_eq(entries[2].0.as_str(), "metadata") || !str_eq(
                entries[3].0.as_str(),
                "error",
            ) {
                return None;
            }
            let success = match &entries[0].1 {
                JsonValue::Bool(b) => *b,
                _ => {
                    return None;
                },
            };
            let chunk_vs = match &entries[1].1 {
                JsonValue::Arr(a) => a,
                _ => {
                    return None;
                },
            };
            let ghost av = jv_view_arr(chunk_vs@);
            proof {
                lemma_jv_view_arr(chunk_vs@);
                lemma_dec_chunks_index(av);
                assert(av.subrange(0, 0) =~= Seq::<JsonV>::empty());
            }
            let mut chunks: Vec<ContentChunk> = Vec::new();
            let mut i: usize = 0;
            while i < chunk_vs.len()
                invariant
                    av == jv_view_arr(chunk_vs@),
                    av.len() == chunk_vs@.len(),
                    forall|j: int|
                        0 <= j < chunk_vs@.len() ==> #[trigger] av[j] == chunk_vs@[j]@,
                    dec_chunks(av) matches Some(cs) ==> cs.len() == av.len() && forall|j: int|
                        0 <= j < av.len() ==> dec_chunk(#[trigger] av[j]) == Some(cs[j]),
                    dec_chunks(av) is None ==> dec_result(v@) is None,
                    i <= chunk_vs@.len(),
                    chunks@.len() == i as int,
                    dec_chunks(av.subrange(0, i as int)) == Some(chunks_view(chunks@)),
                decreases chunk_vs@.len() - i,
            {
                proof {
                    assert(av.subrange(0, i as int + 1) =~= av.subrange(0, i as int).push(
                        av[i as int],
                    ));
                    lemma_dec_chunks_snoc(av.subrange(0, i as int), av[i as int]);
                }
                let c = match chunk_from_json(&chunk_vs[i]) {
                    Option::Some(c) => c,
                    Option::None => {
                        // one element refused, so the whole list decodes to
                        // nothing
                        proof {
                            lemma_dec_chunks_index(av);
                        }
                        return None;
                    },
                };
                let ghost oldseq = chunks@;
                let ghost oldv = chunks_view(oldseq);
                chunks.push(c);
                proof {
                    lemma_chunks_view(chunks@);
                    lemma_chunks_view(oldseq);
                    assert(chunks_view(chunks@) =~= oldv.push(c@));
                }
                i = i + 1;
            }
            proof {
                assert(av.subrange(0, av.len() as int) =~= av);
            }
            let metadata = match metadata_from_json(&entries[2].1) {
                Option::Some(m) => m,
                Option::None => {
                    return None;
                },
            };
            let error = match dec_opt_str_exec(&entries[3].1) {
                Option::Some(o) => o,
                Option::None => {
                    return None;
                },
            };
            Some(ContentProcessingResult { success, chunks, metadata, error })
        },
        _ => None,
    }
}

} // verus!
