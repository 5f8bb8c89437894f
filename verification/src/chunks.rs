//! Turns the windows of sliding-window chunking into content chunks with
//! deterministic identifiers and per-chunk metadata, as the text-based
//! providers produce them.
use crate::models::{meta_view, lemma_jv_view_obj, ChunkV, ContentChunk, JsonV, JsonValue, MetaMap, MetaMapV};
use crate::sliding::{chunk_text, windows};
use crate::strutil::{dec_of, lemma_cat_cancel, lemma_dec_of_digits, lemma_dec_of_injective,
    trim_spec, trim_str, usize_to_dec};
use crate::models::lemma_chunks_view;
use crate::models::chunks_view;
use vstd::prelude::*;
use vstd::string::*;

verus! {

/// The identifier of window chunk `i`.
pub open spec fn window_chunk_id(id_prefix: Seq<char>, i: nat) -> Seq<char> {
    id_prefix + dec_of(i)
}

/// The rendered content of window chunk `i`: a top-level heading for the
/// first chunk, a numbered section heading for the others, then the
/// trimmed window text.
pub open spec fn window_chunk_content(
    first_header: Seq<char>,
    sec_prefix: Seq<char>,
    w: Seq<char>,
    i: nat,
) -> Seq<char> {
    if i == 0 {
        first_header + trim_spec(w)
    } else {
        sec_prefix + dec_of((i + 1) as nat) + "\n\n"@ + trim_spec(w)
    }
}

/// The metadata of window chunk `i`: its ordinal, its source format, and a
/// format-specific numbered reference.
pub open spec fn window_chunk_meta(
    source: Seq<char>,
    extra_key: Seq<char>,
    extra_prefix: Seq<char>,
    i: nat,
) -> MetaMapV {
    seq![
        ("chunk_index"@, JsonV::Num(dec_of(i))),
        ("source"@, JsonV::Str(source)),
        (extra_key, JsonV::Str(extra_prefix + dec_of((i + 1) as nat))),
    ]
}

pub open spec fn window_chunk_v(
    id_prefix: Seq<char>,
    first_header: Seq<char>,
    sec_prefix: Seq<char>,
    source: Seq<char>,
    extra_key: Seq<char>,
    extra_prefix: Seq<char>,
    w: Seq<char>,
    i: nat,
) -> ChunkV {
    ChunkV {
        id: window_chunk_id(id_prefix, i),
        content: window_chunk_content(first_header, sec_prefix, w, i),
        metadata: window_chunk_meta(source, extra_key, extra_prefix, i),
    }
}

/// All chunks of a text under sliding-window chunking with size `c` and
/// overlap `o`.
pub open spec fn window_chunks_of(
    text: Seq<char>,
    c: int,
    o: int,
    id_prefix: Seq<char>,
    first_header: Seq<char>,
    sec_prefix: Seq<char>,
    source: Seq<char>,
    extra_key: Seq<char>,
    extra_prefix: Seq<char>,
) -> Seq<ChunkV> {
    Seq::new(
        windows(text, c, o).len(),
        |i: int|
            window_chunk_v(
                id_prefix,
                first_header,
                sec_prefix,
                source,
                extra_key,
                extra_prefix,
                windows(text, c, o)[i],
                i as nat,
            ),
    )
}

/// Window chunk identifiers are non-empty and pairwise distinct.
pub proof fn lemma_window_chunk_ids(id_prefix: Seq<char>, i: nat, j: nat)
    requires
        i != j,
    ensures
        window_chunk_id(id_prefix, i).len() > 0,
        window_chunk_id(id_prefix, i) != window_chunk_id(id_prefix, j),
{
    lemma_dec_of_digits(i);
    lemma_dec_of_digits(j);
    if window_chunk_id(id_prefix, i) == window_chunk_id(id_prefix, j) {
        lemma_cat_cancel(id_prefix, dec_of(i), dec_of(j));
        lemma_dec_of_injective(i, j);
    }
}

fn meta_entry_num(key: &str, n: usize) -> (r: (String, JsonValue))
    ensures
        r.0@ == key@,
        r.1@ == JsonV::Num(dec_of(n as nat)),
{
    (key.to_owned(), JsonValue::Num(usize_to_dec(n)))
}

fn meta_entry_str(key: &str, val: String) -> (r: (String, JsonValue))
    ensures
        r.0@ == key@,
        r.1@ == JsonV::Str(val@),
{
    (key.to_owned(), JsonValue::Str(val))
}

/// Builds the window chunks of `text` for one text-based format.
pub fn build_window_chunks(
    text: &str,
    chunk_size: usize,
    overlap: usize,
    id_prefix: &str,
    first_header: &str,
    sec_prefix: &str,
    source: &str,
    extra_key: &str,
    extra_prefix: &str,
) -> (r: Vec<ContentChunk>)
    requires
        overlap < chunk_size,
    ensures
        chunks_view(r@) == window_chunks_of(
            text@,
            chunk_size as int,
            overlap as int,
            id_prefix@,
            first_header@,
            sec_prefix@,
            source@,
            extra_key@,
            extra_prefix@,
        ),
{
    let ghost expected = window_chunks_of(
        text@,
        chunk_size as int,
        overlap as int,
        id_prefix@,
        first_header@,
        sec_prefix@,
        source@,
        extra_key@,
        extra_prefix@,
    );
    let pieces = chunk_text(text, chunk_size, overlap);
    proof {
        assert(pieces.deep_view().len() == pieces@.len());
        assert(expected.len() == pieces@.len());
    }
    let mut out: Vec<ContentChunk> = Vec::new();
    let mut i: usize = 0;
    while i < pieces.len()
        invariant
            pieces.deep_view() == windows(text@, chunk_size as int, overlap as int),
            expected == window_chunks_of(
                text@,
                chunk_size as int,
                overlap as int,
                id_prefix@,
                first_header@,
                sec_prefix@,
                source@,
                extra_key@,
                extra_prefix@,
            ),
            expected.len() == pieces@.len(),
            i <= pieces@.len(),
            out@.len() == i as int,
            forall|j: int| 0 <= j < i as int ==> #[trigger] out@[j]@ == expected[j],
        decreases pieces@.len() - i,
    {
        let ghost w = pieces@[i as int]@;
        proof {
            assert(pieces.deep_view()[i as int] == pieces@[i as int]@);
        }
        let num = usize_to_dec(i);
        let mut id = id_prefix.to_owned();
        id.append(num.as_str());
        let trimmed = trim_str(pieces[i].as_str());
        let mut content: String;
        if i == 0 {
            content = first_header.to_owned();
            content.append(trimmed.as_str());
        } else {
            content = sec_prefix.to_owned();
            let num1 = usize_to_dec(i + 1);
            content.append(num1.as_str());
            content.append("\n\n");
            content.append(trimmed.as_str());
        }
        let mut metadata: MetaMap = Vec::new();
        metadata.push(meta_entry_num("chunk_index", i));
        metadata.push(meta_entry_str("source", source.to_owned()));
        let mut extra = extra_prefix.to_owned();
        let num1 = usize_to_dec(i + 1);
        extra.append(num1.as_str());
        metadata.push(meta_entry_str(extra_key, extra));
        proof {
            reveal_strlit("\n\n");
            lemma_jv_view_obj(metadata@);
            assert(meta_view(metadata) =~= window_chunk_meta(
                source@,
                extra_key@,
                extra_prefix@,
                i as nat,
            ));
        }
        let chunk = ContentChunk { id, content, metadata };
        proof {
            assert(chunk@ == expected[i as int]);
        }
        out.push(chunk);
        i = i + 1;
    }
    proof {
        lemma_chunks_view(out@);
        assert(chunks_view(out@) =~= expected);
    }
    out
}

} // verus!
