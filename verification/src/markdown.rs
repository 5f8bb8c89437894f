//! Markdown provider: heading-based section splitting over the token
//! stream, one chunk per section, and title extraction for metadata.
use crate::models::{chunks_view, lemma_jv_view_obj, meta_view, opt_string_view, result_wf, ChunkV,
    ContentChunk, ContentMetadata, ContentProcessingResult, ContentType, JsonV, JsonValue, MetaMap,
    MetaMapV, MetadataV};
use crate::strutil::{dec_of, lemma_cat_cancel, lemma_dec_of_digits, lemma_dec_of_injective,
    repeat_seq, repeat_str, trim_spec, trim_str, usize_to_dec};
use vstd::prelude::*;
use vstd::string::*;

verus! {

#[derive(Debug, Clone, Copy, PartialEq, Eq, Structural)]
pub struct MarkdownProvider;

/// One event of the Markdown token stream, as the section splitter reads
/// it: heading delimiters with their level, text and inline code, code
/// fence delimiters, soft and hard line breaks; anything else is opaque.
pub enum MdEvent {
    HeadingStart(u8),
    HeadingEnd,
    Text(String),
    Code(String),
    CodeStart,
    CodeEnd,
    SoftBreak,
    HardBreak,
    Other,
}

/// The model of an `MdEvent`.
pub enum MdEventV {
    HeadingStart(u8),
    HeadingEnd,
    Text(Seq<char>),
    Code(Seq<char>),
    CodeStart,
    CodeEnd,
    SoftBreak,
    HardBreak,
    Other,
}

pub open spec fn event_view(e: MdEvent) -> MdEventV {
    match e {
        MdEvent::HeadingStart(l) => MdEventV::HeadingStart(l),
        MdEvent::HeadingEnd => MdEventV::HeadingEnd,
        MdEvent::Text(t) => MdEventV::Text(t@),
        MdEvent::Code(c) => MdEventV::Code(c@),
        MdEvent::CodeStart => MdEventV::CodeStart,
        MdEvent::CodeEnd => MdEventV::CodeEnd,
        MdEvent::SoftBreak => MdEventV::SoftBreak,
        MdEvent::HardBreak => MdEventV::HardBreak,
        MdEvent::Other => MdEventV::Other,
    }
}

pub open spec fn events_view(s: Seq<MdEvent>) -> Seq<MdEventV> {
    Seq::new(s.len(), |i: int| event_view(s[i]))
}

/// What the Markdown tokenizer makes of the given text. The outcome depends
/// on the text alone.
pub uninterp spec fn md_events_of(s: Seq<char>) -> Seq<MdEventV>;

/// Relies on pulldown_cmark::Parser: tokenizes a Markdown document; each
/// event is carried over one for one (heading levels as their numbers,
/// text and inline code as their strings, code fences and breaks as
/// markers).
#[verifier::external_body]
fn md_events(text: &str) -> (r: Vec<MdEvent>)
    ensures
        events_view(r@) == md_events_of(text@),
{
    pulldown_cmark::Parser::new(text).map(|e| match e {
        pulldown_cmark::Event::Start(pulldown_cmark::Tag::Heading { level, .. }) =>
            MdEvent::HeadingStart(level as u8),
        pulldown_cmark::Event::End(pulldown_cmark::TagEnd::Heading(_)) => MdEvent::HeadingEnd,
        pulldown_cmark::Event::Text(t) => MdEvent::Text(t.to_string()),
        pulldown_cmark::Event::Code(c) => MdEvent::Code(c.to_string()),
        pulldown_cmark::Event::Start(pulldown_cmark::Tag::CodeBlock(_)) => MdEvent::CodeStart,
        pulldown_cmark::Event::End(pulldown_cmark::TagEnd::CodeBlock) => MdEvent::CodeEnd,
        pulldown_cmark::Event::SoftBreak => MdEvent::SoftBreak,
        pulldown_cmark::Event::HardBreak => MdEvent::HardBreak,
        _ => MdEvent::Other,
    }).collect()
}

/// One section: its title, its accumulated body, and its heading level.
pub type SectionV = (Seq<char>, Seq<char>, nat);

/// The splitter's running state.
pub struct SecState {
    pub title: Seq<char>,
    pub content: Seq<char>,
    pub level: nat,
    pub in_code: bool,
    pub acc: Seq<SectionV>,
}

pub open spec fn sec_init() -> SecState {
    SecState {
        title: Seq::empty(),
        content: Seq::empty(),
        level: 0,
        in_code: false,
        acc: Seq::empty(),
    }
}

/// How one event changes the splitter's state: a heading start closes the
/// running section (when it has a title) and opens a new one; the heading's
/// text becomes the title; when the heading ends the body starts empty, so
/// that it holds exactly the content following the heading; text, inline
/// code, fences and breaks accumulate into the body (soft breaks become
/// spaces outside code fences and newlines inside).
pub open spec fn sec_step(st: SecState, e: MdEventV) -> SecState {
    match e {
        MdEventV::HeadingStart(l) => SecState {
            title: Seq::empty(),
            content: Seq::empty(),
            level: l as nat,
            in_code: st.in_code,
            acc: if st.title.len() > 0 {
                st.acc.push((st.title, trim_spec(st.content), st.level))
            } else {
                st.acc
            },
        },
        MdEventV::HeadingEnd => SecState { content: Seq::empty(), ..st },
        MdEventV::Text(t) => if st.title.len() == 0 && st.level > 0 {
            SecState { title: t, ..st }
        } else {
            SecState { content: st.content + t, ..st }
        },
        MdEventV::Code(c) => SecState { content: st.content + "`"@ + c + "`"@, ..st },
        MdEventV::CodeStart => SecState { in_code: true, content: st.content + "```\n"@, ..st },
        MdEventV::CodeEnd => SecState { in_code: false, content: st.content + "\n```\n"@, ..st },
        MdEventV::SoftBreak => SecState {
            content: st.content + if st.in_code {
                "\n"@
            } else {
                " "@
            },
            ..st
        },
        MdEventV::HardBreak => SecState { content: st.content + "\n"@, ..st },
        MdEventV::Other => st,
    }
}

pub open spec fn sec_fold(st: SecState, events: Seq<MdEventV>) -> SecState
    decreases events.len(),
{
    if events.len() == 0 {
        st
    } else {
        sec_fold(sec_step(st, events[0]), events.subrange(1, events.len() as int))
    }
}

proof fn lemma_sec_fold_snoc(st: SecState, events: Seq<MdEventV>, e: MdEventV)
    ensures
        sec_fold(st, events.push(e)) == sec_step(sec_fold(st, events), e),
    decreases events.len(),
{
    if events.len() == 0 {
        assert(events.push(e)[0] == e);
        assert(events.push(e).len() == 1);
        assert(events.push(e).subrange(1, 1) =~= Seq::<MdEventV>::empty());
        assert(sec_fold(sec_step(st, e), events.push(e).subrange(1, 1)) == sec_step(st, e));
        assert(sec_fold(st, events) == st);
    } else {
        assert(events.push(e)[0] == events[0]);
        assert(events.push(e).subrange(1, events.len() as int + 1) =~= events.subrange(
            1,
            events.len() as int,
        ).push(e));
        lemma_sec_fold_snoc(sec_step(st, events[0]), events.subrange(1, events.len() as int), e);
    }
}

/// The sections of a document with the given events: the fold's sections,
/// the final pending section appended when it has a title or a body; a
/// non-empty document that yielded nothing at all becomes one section
/// titled empty-string with the entire document as content.
pub open spec fn sections_spec(events: Seq<MdEventV>, doc: Seq<char>) -> Seq<SectionV> {
    let fin = sec_fold(sec_init(), events);
    let all = if fin.title.len() > 0 || fin.content.len() > 0 {
        fin.acc.push((fin.title, trim_spec(fin.content), fin.level))
    } else {
        fin.acc
    };
    if all.len() == 0 && doc.len() > 0 {
        seq![(Seq::<char>::empty(), doc, 0nat)]
    } else {
        all
    }
}

/// The model of the section tuples the splitter returns.
pub open spec fn secs_view(s: Seq<(String, String, usize)>) -> Seq<SectionV> {
    Seq::new(s.len(), |i: int| (s[i].0@, s[i].1@, s[i].2 as nat))
}

impl MarkdownProvider {
    pub fn new() -> (r: Self)
        ensures
            r == (MarkdownProvider {}),
    {
        MarkdownProvider
    }

    /// Splits a Markdown document into sections at its headings: each
    /// section records its heading's text and level and accumulates the
    /// following content until the next heading; a document without
    /// headings becomes a single section.
    pub fn extract_sections(&self, markdown: &str) -> (r: Vec<(String, String, usize)>)
        ensures
            secs_view(r@) == sections_spec(md_events_of(markdown@), markdown@),
    {
        let events = md_events(markdown);
        self.sections_from_events(&events, markdown)
    }

    /// The section splitting itself, over an already-tokenized event
    /// stream.
    pub fn sections_from_events(&self, events: &Vec<MdEvent>, markdown: &str) -> (r: Vec<
        (String, String, usize),
    >)
        ensures
            secs_view(r@) == sections_spec(events_view(events@), markdown@),
    {
        let ghost ev = events_view(events@);
        let mut title = String::new();
        let mut content = String::new();
        let mut level: usize = 0;
        let mut in_code = false;
        let mut acc: Vec<(String, String, usize)> = Vec::new();
        proof {
            assert(ev.subrange(0, 0) =~= Seq::<MdEventV>::empty());
            assert(secs_view(acc@) =~= sec_init().acc);
        }
        let mut i: usize = 0;
        while i < events.len()
            invariant
                events_view(events@) == ev,
                ev.len() == events@.len(),
                i <= events@.len(),
                level <= u8::MAX,
                ({
                    let st = sec_fold(sec_init(), ev.subrange(0, i as int));
                    &&& title@ == st.title
                    &&& content@ == st.content
                    &&& level as nat == st.level
                    &&& in_code == st.in_code
                    &&& secs_view(acc@) == st.acc
                }),
            decreases events@.len() - i,
        {
            let ghost st = sec_fold(sec_init(), ev.subrange(0, i as int));
            proof {
                assert(ev.subrange(0, i as int + 1) =~= ev.subrange(0, i as int).push(
                    ev[i as int],
                ));
                lemma_sec_fold_snoc(sec_init(), ev.subrange(0, i as int), ev[i as int]);
                assert(events_view(events@)[i as int] == event_view(events@[i as int]));
            }
            match &events[i] {
                MdEvent::HeadingStart(l) => {
                    if !title.as_str().is_empty() {
                        let body = trim_str(content.as_str());
                        acc.push((title, body, level));
                        proof {
                            assert(secs_view(acc@) =~= st.acc.push(
                                (st.title, trim_spec(st.content), st.level),
                            ));
                        }
                    }
                    title = String::new();
                    content = String::new();
                    level = *l as usize;
                },
                MdEvent::HeadingEnd => {
                    content = String::new();
                },
                MdEvent::Text(t) => {
                    if title.as_str().is_empty() && level > 0 {
                        title = t.clone();
                    } else {
                        content.append(t.as_str());
                    }
                },
                MdEvent::Code(c) => {
                    content.append("`");
                    content.append(c.as_str());
                    content.append("`");
                },
                MdEvent::CodeStart => {
                    in_code = true;
                    content.append("```\n");
                },
                MdEvent::CodeEnd => {
                    in_code = false;
                    content.append("\n```\n");
                },
                MdEvent::SoftBreak => {
                    if in_code {
                        content.append("\n");
                    } else {
                        content.append(" ");
                    }
                },
                MdEvent::HardBreak => {
                    content.append("\n");
                },
                MdEvent::Other => {},
            }
            i = i + 1;
        }
        proof {
            assert(ev.subrange(0, ev.len() as int) =~= ev);
        }
        if !title.as_str().is_empty() || !content.as_str().is_empty() {
            let body = trim_str(content.as_str());
            let ghost fin = sec_fold(sec_init(), ev);
            acc.push((title, body, level));
            proof {
                assert(secs_view(acc@) =~= fin.acc.push(
                    (fin.title, trim_spec(fin.content), fin.level),
                ));
            }
            return acc;
        }
        if acc.len() == 0 && !markdown.is_empty() {
            let mut out: Vec<(String, String, usize)> = Vec::new();
            out.push((String::new(), markdown.to_owned(), 0));
            proof {
                assert(secs_view(out@) =~= seq![(Seq::<char>::empty(), markdown@, 0nat)]);
            }
            return out;
        }
        proof {
            let fin = sec_fold(sec_init(), ev);
            assert(secs_view(acc@) =~= sections_spec(ev, markdown@));
        }
        acc
    }
}

} // verus!

verus! {

/// The position of the first occurrence of `c` (the length when absent).
pub open spec fn find_char(s: Seq<char>, c: char) -> int
    decreases s.len(),
{
    if s.len() == 0 {
        0
    } else if s[0] == c {
        0
    } else {
        1 + find_char(s.subrange(1, s.len() as int), c)
    }
}

proof fn lemma_find_char_bounds(s: Seq<char>, c: char)
    ensures
        0 <= find_char(s, c) <= s.len(),
    decreases s.len(),
{
    if s.len() > 0 && s[0] != c {
        lemma_find_char_bounds(s.subrange(1, s.len() as int), c);
    }
}

proof fn lemma_find_char_range(s: Seq<char>, c: char, k: int)
    requires
        0 <= k <= s.len(),
        forall|m: int| 0 <= m < k ==> s[m] != c,
        k == s.len() || s[k] == c,
    ensures
        find_char(s, c) == k,
    decreases k,
{
    if s.len() > 0 {
        if k == 0 {
        } else {
            let s1 = s.subrange(1, s.len() as int);
            lemma_find_char_range(s1, c, k - 1);
        }
    }
}

/// A line without its leading `#` characters.
pub open spec fn drop_hashes(l: Seq<char>) -> Seq<char>
    decreases l.len(),
{
    if l.len() > 0 && l[0] == '#' {
        drop_hashes(l.subrange(1, l.len() as int))
    } else {
        l
    }
}

proof fn lemma_drop_hashes_range(l: Seq<char>, k: int)
    requires
        0 <= k <= l.len(),
        forall|m: int| 0 <= m < k ==> l[m] == '#',
        k == l.len() || l[k] != '#',
    ensures
        drop_hashes(l) =~= l.subrange(k, l.len() as int),
    decreases k,
{
    if k == 0 {
        if l.len() > 0 {
            assert(l[0] != '#');
        }
        assert(l.subrange(0, l.len() as int) =~= l);
    } else {
        let l1 = l.subrange(1, l.len() as int);
        lemma_drop_hashes_range(l1, k - 1);
        assert(l1.subrange(k - 1, l1.len() as int) =~= l.subrange(k, l.len() as int));
    }
}

/// The title the metadata extractor reads from a document: the first line
/// that begins with `#`, without its heading marker, trimmed; none when no
/// such line exists.
pub open spec fn md_title(s: Seq<char>) -> Option<Seq<char>>
    decreases s.len(),
    via md_title_decreases
{
    if s.len() == 0 {
        Option::None
    } else if s[0] == '#' {
        Option::Some(trim_spec(drop_hashes(s.subrange(0, find_char(s, '\n')))))
    } else {
        if find_char(s, '\n') >= s.len() {
            Option::None
        } else {
            md_title(s.subrange(find_char(s, '\n') + 1, s.len() as int))
        }
    }
}

#[via_fn]
proof fn md_title_decreases(s: Seq<char>) {
    lemma_find_char_bounds(s, '\n');
}

fn find_nl(text: &str, from: usize) -> (r: usize)
    requires
        from <= text@.len(),
    ensures
        from <= r <= text@.len(),
        r - from == find_char(text@.subrange(from as int, text@.len() as int), '\n'),
    decreases text@.len() - from,
{
    let n = text.unicode_len();
    let mut j = from;
    while j < n && text.get_char(j) != '\n'
        invariant
            n == text@.len(),
            from <= j <= n,
            forall|m: int| from <= m < j ==> text@[m] != '\n',
        decreases n - j,
    {
        j = j + 1;
    }
    proof {
        let suf = text@.subrange(from as int, n as int);
        lemma_find_char_range(suf, '\n', j - from);
    }
    j
}

fn first_heading_title(text: &str) -> (r: Option<String>)
    ensures
        opt_string_view(r) == md_title(text@),
{
    let n = text.unicode_len();
    let mut pos: usize = 0;
    proof {
        assert(text@.subrange(0, n as int) =~= text@);
    }
    loop
        invariant
            n == text@.len(),
            pos <= n,
            md_title(text@) == md_title(text@.subrange(pos as int, n as int)),
        decreases n - pos,
    {
        let ghost suf = text@.subrange(pos as int, n as int);
        if pos >= n {
            return None;
        }
        let j = find_nl(text, pos);
        proof {
            assert(suf[0] == text@[pos as int]);
        }
        if text.get_char(pos) == '#' {
            // the heading line runs to the next line break
            let mut k = pos;
            while k < j && text.get_char(k) == '#'
                invariant
                    n == text@.len(),
                    pos <= k <= j <= n,
                    forall|m: int| pos <= m < k ==> text@[m] == '#',
                decreases j - k,
            {
                k = k + 1;
            }
            let line = text.substring_char(k, j);
            let out = trim_str(line);
            proof {
                let lineall = text@.subrange(pos as int, j as int);
                assert(lineall =~= suf.subrange(0, find_char(suf, '\n')));
                assert(forall|m: int| 0 <= m < k - pos ==> lineall[m] == '#');
                assert(k - pos == lineall.len() || lineall[k - pos] != '#') by {
                    if k < j {
                        assert(text@[k as int] != '#');
                    }
                }
                lemma_drop_hashes_range(lineall, k - pos);
                assert(line@ =~= drop_hashes(lineall));
            }
            return Some(out);
        }
        if j >= n {
            proof {
                assert(find_char(suf, '\n') >= suf.len());
            }
            return None;
        }
        proof {
            assert(text@.subrange(pos as int + (find_char(suf, '\n') + 1), n as int)
                =~= text@.subrange(j as int + 1, n as int));
            assert(suf.subrange(find_char(suf, '\n') + 1, suf.len() as int) =~= text@.subrange(
                j as int + 1,
                n as int,
            ));
        }
        pos = j + 1;
    }
}

/// The metadata of section chunk `i`.
pub open spec fn md_chunk_meta(sec: SectionV, i: nat) -> MetaMapV {
    seq![
        ("chunk_index"@, JsonV::Num(dec_of(i))),
        ("section_title"@, JsonV::Str(sec.0)),
        ("heading_level"@, JsonV::Num(dec_of(sec.2))),
        ("source"@, JsonV::Str("markdown"@)),
    ]
}

/// The content of section chunk `i`: the reconstructed heading marker and
/// title, then the body; a title-less section is its body alone.
pub open spec fn md_chunk_content(sec: SectionV) -> Seq<char> {
    if sec.0.len() > 0 {
        repeat_seq("#"@, sec.2) + " "@ + sec.0 + "\n\n"@ + sec.1
    } else {
        sec.1
    }
}

pub open spec fn md_chunk_v(sec: SectionV, i: nat) -> ChunkV {
    ChunkV {
        id: "md_chunk_"@ + dec_of(i),
        content: md_chunk_content(sec),
        metadata: md_chunk_meta(sec, i),
    }
}

/// All section chunks of a document with the given events.
pub open spec fn md_chunks_of(events: Seq<MdEventV>, doc: Seq<char>) -> Seq<ChunkV> {
    Seq::new(
        sections_spec(events, doc).len(),
        |i: int| md_chunk_v(sections_spec(events, doc)[i], i as nat),
    )
}

/// The metadata record of a Markdown file.
pub open spec fn md_metadata_v(
    doc: Seq<char>,
    file_name: Option<Seq<char>>,
    file_size: u64,
) -> MetadataV {
    MetadataV {
        content_type: ContentType::Markdown,
        file_name: file_name,
        file_size: Some(file_size),
        created_at: None,
        modified_at: None,
        author: None,
        title: md_title(doc),
        language: None,
        additional: Seq::empty(),
    }
}

impl MarkdownProvider {
    /// Splits the document into sections and builds one chunk per section;
    /// serializing the chunks in order reconstructs every heading.
    pub fn to_markdown_chunks(&self, text: &str) -> (r: Vec<ContentChunk>)
        ensures
            chunks_view(r@) == md_chunks_of(md_events_of(text@), text@),
    {
        let sections = self.extract_sections(text);
        let ghost secs = sections_spec(md_events_of(text@), text@);
        let ghost expected = md_chunks_of(md_events_of(text@), text@);
        let mut out: Vec<ContentChunk> = Vec::new();
        let mut i: usize = 0;
        while i < sections.len()
            invariant
                secs_view(sections@) == secs,
                secs == sections_spec(md_events_of(text@), text@),
                secs.len() == sections@.len(),
                expected == md_chunks_of(md_events_of(text@), text@),
                expected.len() == secs.len(),
                i <= sections@.len(),
                out@.len() == i as int,
                forall|j: int| 0 <= j < i as int ==> #[trigger] out@[j]@ == expected[j],
            decreases sections@.len() - i,
        {
            let ghost sec = secs[i as int];
            proof {
                assert(secs_view(sections@)[i as int] == (
                    sections@[i as int].0@,
                    sections@[i as int].1@,
                    sections@[i as int].2 as nat,
                ));
            }
            let entry = &sections[i];
            let mut id = "md_chunk_".to_owned();
            let num = usize_to_dec(i);
            id.append(num.as_str());

            let content: String;
            if !entry.0.as_str().is_empty() {
                let mut c = repeat_str("#", entry.2);
                c.append(" ");
                c.append(entry.0.as_str());
                c.append("\n\n");
                c.append(entry.1.as_str());
                proof {
                    reveal_strlit(" ");
                    reveal_strlit("\n\n");
                    assert(c@ =~= md_chunk_content(sec));
                }
                content = c;
            } else {
                content = entry.1.clone();
            }
            let mut metadata: MetaMap = Vec::new();
            metadata.push(("chunk_index".to_owned(), JsonValue::Num(usize_to_dec(i))));
            metadata.push(("section_title".to_owned(), JsonValue::Str(entry.0.clone())));
            metadata.push(("heading_level".to_owned(), JsonValue::Num(usize_to_dec(entry.2))));
            metadata.push(("source".to_owned(), JsonValue::Str("markdown".to_owned())));
            proof {
                lemma_jv_view_obj(metadata@);
                assert(meta_view(metadata) =~= md_chunk_meta(sec, i as nat));
            }
            let chunk = ContentChunk { id, content, metadata };
            proof {
                assert(chunk@ == expected[i as int]);
            }
            out.push(chunk);
            i = i + 1;
        }
        proof {
            crate::models::lemma_chunks_view(out@);
            assert(chunks_view(out@) =~= expected);
        }
        out
    }

    /// The metadata record for a Markdown file: the first heading line,
    /// without its marker and trimmed, becomes the title.
    pub fn to_metadata(&self, text: &str, file_name: Option<String>, file_size: u64) -> (r:
        ContentMetadata)
        ensures
            r@ == md_metadata_v(text@, opt_string_view(file_name), file_size),
    {
        let title = first_heading_title(text);
        let r = ContentMetadata {
            content_type: ContentType::Markdown,
            file_name,
            file_size: Some(file_size),
            created_at: None,
            modified_at: None,
            author: None,
            title,
            language: None,
            additional: Vec::new(),
        };
        proof {
            assert(meta_view(r.additional) =~= Seq::<(Seq<char>, JsonV)>::empty());
        }
        r
    }

    /// Processes one Markdown file: always a successful result with the
    /// section chunks and the title metadata.
    pub fn process_content(&self, text: &str, file_name: Option<String>, file_size: u64) -> (r:
        ContentProcessingResult)
        ensures
            result_wf(r@),
            r@.success && r@.error is None,
            r@.chunks == md_chunks_of(md_events_of(text@), text@),
            r@.metadata == md_metadata_v(text@, opt_string_view(file_name), file_size),
    {
        let chunks = self.to_markdown_chunks(text);
        let metadata = self.to_metadata(text, file_name, file_size);
        let r = ContentProcessingResult { success: true, chunks, metadata, error: None };
        proof {
            let cs = r@.chunks;
            assert forall|i: int, j: int| 0 <= i < j < cs.len() implies cs[i].id != cs[j].id by {
                lemma_md_chunk_ids(i as nat, j as nat);
            }
            assert forall|i: int| 0 <= i < cs.len() implies #[trigger] cs[i].id.len() > 0 by {
                lemma_md_chunk_ids(i as nat, (i + 1) as nat);
            }
        }
        r
    }
}

/// Section chunk identifiers are non-empty and pairwise distinct.
proof fn lemma_md_chunk_ids(i: nat, j: nat)
    requires
        i != j,
    ensures
        ("md_chunk_"@ + dec_of(i)).len() > 0,
        "md_chunk_"@ + dec_of(i) != "md_chunk_"@ + dec_of(j),
{
    lemma_dec_of_digits(i);
    lemma_dec_of_digits(j);
    if "md_chunk_"@ + dec_of(i) == "md_chunk_"@ + dec_of(j) {
        lemma_cat_cancel("md_chunk_"@, dec_of(i), dec_of(j));
        lemma_dec_of_injective(i, j);
    }
}

} // verus!

verus! {

/// How many heading-start events a stream holds.
pub open spec fn hcount(es: Seq<MdEventV>) -> nat
    decreases es.len(),
{
    if es.len() == 0 {
        0
    } else {
        (if es[0] is HeadingStart {
            1nat
        } else {
            0nat
        }) + hcount(es.subrange(1, es.len() as int))
    }
}

/// The levels of the heading-start events, in stream order.
pub open spec fn hlevels(es: Seq<MdEventV>) -> Seq<nat>
    decreases es.len(),
{
    if es.len() == 0 {
        Seq::empty()
    } else {
        (match es[0] {
            MdEventV::HeadingStart(l) => seq![l as nat],
            _ => Seq::empty(),
        }) + hlevels(es.subrange(1, es.len() as int))
    }
}

/// Every heading carries a title: each heading-start event has a level of
/// at least one and is immediately followed by a non-empty text event (the
/// shape the tokenizer produces for an ordinary heading).
pub open spec fn well_titled(es: Seq<MdEventV>) -> bool {
    forall|i: int|
        0 <= i < es.len() && (#[trigger] es[i]) is HeadingStart ==> es[i]->HeadingStart_0 >= 1 && i
            + 1 < es.len() && es[i + 1] is Text && es[i + 1]->Text_0.len() > 0
}

/// The levels of a run of sections.
pub open spec fn sec_levels(ss: Seq<SectionV>) -> Seq<nat> {
    ss.map_values(|s: SectionV| s.2)
}

proof fn lemma_hcount_cat(a: Seq<MdEventV>, b: Seq<MdEventV>)
    ensures
        hcount(a + b) == hcount(a) + hcount(b),
        hlevels(a + b) == hlevels(a) + hlevels(b),
    decreases a.len(),
{
    if a.len() == 0 {
        assert(a + b =~= b);
        assert(hlevels(a) + hlevels(b) =~= hlevels(b));
    } else {
        assert((a + b)[0] == a[0]);
        assert((a + b).subrange(1, (a + b).len() as int) =~= a.subrange(1, a.len() as int) + b);
        lemma_hcount_cat(a.subrange(1, a.len() as int), b);
        assert(hlevels(a + b) =~= hlevels(a) + hlevels(b));
    }
}

proof fn lemma_hcount_none(es: Seq<MdEventV>)
    requires
        forall|i: int| 0 <= i < es.len() ==> !((#[trigger] es[i]) is HeadingStart),
    ensures
        hcount(es) == 0,
        hlevels(es) == Seq::<nat>::empty(),
    decreases es.len(),
{
    if es.len() > 0 {
        lemma_hcount_none(es.subrange(1, es.len() as int));
        assert(hlevels(es) =~= Seq::<nat>::empty());
    }
}

proof fn lemma_fold_append(st: SecState, a: Seq<MdEventV>, b: Seq<MdEventV>)
    ensures
        sec_fold(st, a + b) == sec_fold(sec_fold(st, a), b),
    decreases a.len(),
{
    if a.len() == 0 {
        assert(a + b =~= b);
    } else {
        assert((a + b)[0] == a[0]);
        assert((a + b).subrange(1, (a + b).len() as int) =~= a.subrange(1, a.len() as int) + b);
        lemma_fold_append(sec_step(st, a[0]), a.subrange(1, a.len() as int), b);
    }
}

proof fn lemma_well_titled_suffix(es: Seq<MdEventV>, k: int)
    requires
        well_titled(es),
        0 <= k <= es.len(),
    ensures
        well_titled(es.subrange(k, es.len() as int)),
{
    let suf = es.subrange(k, es.len() as int);
    assert forall|i: int|
        0 <= i < suf.len() && (#[trigger] suf[i]) is HeadingStart implies suf[i]->HeadingStart_0
        >= 1 && i + 1 < suf.len() && suf[i + 1] is Text && suf[i + 1]->Text_0.len() > 0 by {
        assert(suf[i] == es[k + i]);
        assert(es[k + i] is HeadingStart);
        assert(k + i + 1 < es.len());
        assert(suf[i + 1] == es[k + i + 1]);
    }
}

/// With every heading titled and the running section titled too, the fold
/// closes one section per heading, keeps a titled section pending, and
/// lines the levels up: the accumulated levels with the pending level
/// behind them extend the old ones by exactly the headings' levels.
#[verifier::rlimit(100)]
proof fn lemma_fold_titled(st: SecState, es: Seq<MdEventV>)
    requires
        well_titled(es),
        st.title.len() > 0,
    ensures
        sec_fold(st, es).title.len() > 0,
        sec_fold(st, es).acc.len() == st.acc.len() + hcount(es),
        sec_levels(sec_fold(st, es).acc).push(sec_fold(st, es).level) == sec_levels(
            st.acc,
        ).push(st.level) + hlevels(es),
    decreases es.len(),
{
    let fin = sec_fold(st, es);
    if es.len() == 0 {
        assert(hlevels(es) =~= Seq::<nat>::empty());
        assert(sec_levels(fin.acc).push(fin.level) =~= sec_levels(st.acc).push(st.level)
            + hlevels(es));
    } else {
        let e0 = es[0];
        let rest = es.subrange(1, es.len() as int);
        lemma_well_titled_suffix(es, 1);
        if e0 is HeadingStart {
            let l = e0->HeadingStart_0;
            assert(es[1] is Text && es[1]->Text_0.len() > 0 && l >= 1);
            let st1 = sec_step(st, e0);
            assert(st1.title.len() == 0 && st1.level == l as nat);
            assert(st1.acc == st.acc.push((st.title, trim_spec(st.content), st.level)));
            let rest2 = es.subrange(2, es.len() as int);
            assert(rest[0] == es[1]);
            assert(rest.subrange(1, rest.len() as int) =~= rest2);
            let st2 = sec_step(st1, es[1]);
            assert(st2.title == es[1]->Text_0);
            assert(st2.title.len() > 0);
            assert(st2.acc == st1.acc && st2.level == st1.level);
            lemma_well_titled_suffix(es, 2);
            lemma_fold_titled(st2, rest2);
            assert(sec_fold(st, es) == sec_fold(st1, rest));
            assert(sec_fold(st1, rest) == sec_fold(st2, rest2));
            // the head contributes one heading and its level
            assert(es =~= seq![e0, es[1]] + rest2);
            lemma_hcount_cat(seq![e0, es[1]], rest2);
            assert(seq![e0, es[1]].subrange(1, 2) =~= seq![es[1]]);
            assert(seq![es[1]].subrange(1, 1) =~= Seq::<MdEventV>::empty());
            assert(seq![e0, es[1]][0] == e0);
            assert(seq![es[1]][0] == es[1]);
            assert(hlevels(Seq::<MdEventV>::empty()) =~= Seq::<nat>::empty());
            assert(hcount(seq![es[1]]) == 0);
            assert(hlevels(seq![es[1]]) =~= Seq::<nat>::empty());
            assert(hcount(seq![e0, es[1]]) == 1);
            assert(hlevels(seq![e0, es[1]]) =~= seq![l as nat]);
            assert(sec_levels(st1.acc) =~= sec_levels(st.acc).push(st.level));
            assert(sec_levels(fin.acc).push(fin.level) =~= sec_levels(st.acc).push(st.level)
                + hlevels(es));
        } else {
            let st1 = sec_step(st, e0);
            assert(st1.title.len() > 0 && st1.acc == st.acc && st1.level == st.level) by {
                match e0 {
                    MdEventV::Text(t) => {},
                    _ => {},
                }
            }
            lemma_fold_titled(st1, rest);
            assert(hcount(es) == hcount(rest));
            assert(hlevels(es) =~= hlevels(rest));
            assert(sec_levels(st1.acc).push(st1.level) == sec_levels(st.acc).push(st.level));
            assert(sec_levels(fin.acc).push(fin.level) =~= sec_levels(st.acc).push(st.level)
                + hlevels(es));
        }
    }
}

/// Before any heading the fold neither opens nor closes a section.
proof fn lemma_fold_untitled(st: SecState, es: Seq<MdEventV>)
    requires
        forall|i: int| 0 <= i < es.len() ==> !((#[trigger] es[i]) is HeadingStart),
        st.title.len() == 0,
        st.level == 0,
    ensures
        sec_fold(st, es).acc == st.acc,
        sec_fold(st, es).title.len() == 0,
        sec_fold(st, es).level == 0,
    decreases es.len(),
{
    if es.len() > 0 {
        let st1 = sec_step(st, es[0]);
        assert(st1.title.len() == 0 && st1.acc == st.acc && st1.level == 0);
        assert(forall|i: int|
            0 <= i < es.subrange(1, es.len() as int).len() ==> !((#[trigger] es.subrange(
                1,
                es.len() as int,
            )[i]) is HeadingStart));
        lemma_fold_untitled(st1, es.subrange(1, es.len() as int));
    }
}

/// The position of the first heading-start event.
pub open spec fn first_heading(es: Seq<MdEventV>) -> int
    decreases es.len(),
{
    if es.len() == 0 {
        0
    } else if es[0] is HeadingStart {
        0
    } else {
        1 + first_heading(es.subrange(1, es.len() as int))
    }
}

proof fn lemma_first_heading(es: Seq<MdEventV>)
    requires
        hcount(es) > 0,
    ensures
        0 <= first_heading(es) < es.len(),
        es[first_heading(es)] is HeadingStart,
        forall|i: int| 0 <= i < first_heading(es) ==> !((#[trigger] es[i]) is HeadingStart),
    decreases es.len(),
{
    if es.len() > 0 {
        if es[0] is HeadingStart {
        } else {
            lemma_first_heading(es.subrange(1, es.len() as int));
            let p = first_heading(es);
            assert(es.subrange(1, es.len() as int)[p - 1] == es[p]);
            assert forall|i: int| 0 <= i < p implies !((#[trigger] es[i]) is HeadingStart) by {
                if i > 0 {
                    assert(es.subrange(1, es.len() as int)[i - 1] == es[i]);
                }
            }
        }
    }
}

/// One section per heading: when every heading carries a title, a document
/// with headings splits into exactly one section per heading, and section
/// `j` records the level of heading `j`.
proof fn lemma_fold_split(st: SecState, es: Seq<MdEventV>, k: int)
    requires
        0 <= k <= es.len(),
    ensures
        sec_fold(st, es) == sec_fold(
            sec_fold(st, es.subrange(0, k)),
            es.subrange(k, es.len() as int),
        ),
{
    assert(es =~= es.subrange(0, k) + es.subrange(k, es.len() as int));
    lemma_fold_append(st, es.subrange(0, k), es.subrange(k, es.len() as int));
}

proof fn lemma_hcount_split(es: Seq<MdEventV>, k: int)
    requires
        0 <= k <= es.len(),
    ensures
        hcount(es) == hcount(es.subrange(0, k)) + hcount(es.subrange(k, es.len() as int)),
        hlevels(es) == hlevels(es.subrange(0, k)) + hlevels(es.subrange(k, es.len() as int)),
{
    assert(es =~= es.subrange(0, k) + es.subrange(k, es.len() as int));
    lemma_hcount_cat(es.subrange(0, k), es.subrange(k, es.len() as int));
}

#[verifier::spinoff_prover]
proof fn lemma_pair_facts(a: MdEventV, b: MdEventV, st: SecState)
    ensures
        sec_fold(st, seq![a, b]) == sec_step(sec_step(st, a), b),
        a is HeadingStart ==> hcount(seq![a, b]) == 1 + (if b is HeadingStart {
            1nat
        } else {
            0nat
        }),
        (a is HeadingStart && !(b is HeadingStart)) ==> hlevels(seq![a, b]) == seq![
            a->HeadingStart_0 as nat,
        ],
{
    let mid = seq![a, b];
    assert(mid[0] == a);
    assert(mid.subrange(1, 2) =~= seq![b]);
    assert(seq![b][0] == b);
    assert(seq![b].subrange(1, 1) =~= Seq::<MdEventV>::empty());
    assert(sec_fold(st, mid) == sec_fold(sec_step(st, a), seq![b]));
    assert(sec_fold(sec_step(st, a), seq![b]) == sec_fold(
        sec_step(sec_step(st, a), b),
        seq![b].subrange(1, 1),
    ));
    assert(sec_fold(sec_step(sec_step(st, a), b), Seq::<MdEventV>::empty()) == sec_step(
        sec_step(st, a),
        b,
    ));
    assert(hcount(Seq::<MdEventV>::empty()) == 0);
    assert(hlevels(Seq::<MdEventV>::empty()) =~= Seq::<nat>::empty());
    assert(hcount(mid.subrange(1, 2)) == hcount(seq![b]));
    assert(hcount(seq![b]) == (if b is HeadingStart {
        1nat
    } else {
        0nat
    }) + hcount(seq![b].subrange(1, 1)));
    assert(hcount(seq![b].subrange(1, 1)) == 0);
    assert(hcount(mid) == (if a is HeadingStart {
        1nat
    } else {
        0nat
    }) + hcount(mid.subrange(1, 2)));
    if a is HeadingStart && !(b is HeadingStart) {
        assert(hlevels(seq![b]) =~= Seq::<nat>::empty());
        assert(hlevels(mid) =~= seq![a->HeadingStart_0 as nat]);
    }
}

#[verifier::rlimit(100)]
#[verifier::spinoff_prover]
proof fn lemma_fold_to_first_title(events: Seq<MdEventV>)
    requires
        well_titled(events),
        hcount(events) > 0,
    ensures
        ({
            let p = first_heading(events);
            let l = events[p]->HeadingStart_0;
            let rest2 = events.subrange(p + 2, events.len() as int);
            let st3 = sec_fold(sec_init(), events.subrange(0, p + 2));
            &&& 0 <= p && p + 2 <= events.len()
            &&& events[p] is HeadingStart
            &&& sec_fold(sec_init(), events) == sec_fold(st3, rest2)
            &&& st3.title.len() > 0
            &&& st3.acc.len() == 0
            &&& st3.level == l as nat
            &&& hcount(events) == 1 + hcount(rest2)
            &&& hlevels(events) == seq![l as nat] + hlevels(rest2)
        }),
{
    lemma_first_heading(events);
    let p = first_heading(events);
    let pre = events.subrange(0, p);
    let l = events[p]->HeadingStart_0;
    assert(events[p + 1] is Text && events[p + 1]->Text_0.len() > 0 && l >= 1);
    let rest2 = events.subrange(p + 2, events.len() as int);
    let head2 = events.subrange(0, p + 2);
    let mid = seq![events[p], events[p + 1]];

    assert(forall|i: int| 0 <= i < pre.len() ==> !((#[trigger] pre[i]) is HeadingStart)) by {
        assert(forall|i: int| 0 <= i < p ==> pre[i] == events[i]);
    }
    lemma_hcount_none(pre);
    lemma_fold_untitled(sec_init(), pre);
    let st1 = sec_fold(sec_init(), pre);

    lemma_fold_split(sec_init(), events, p + 2);
    lemma_fold_split(sec_init(), head2, p);
    assert(head2.subrange(0, p) =~= pre);
    assert(head2.subrange(p, p + 2) =~= mid);
    lemma_pair_facts(events[p], events[p + 1], st1);
    let st2 = sec_step(st1, events[p]);
    let st3 = sec_step(st2, events[p + 1]);
    assert(sec_fold(sec_init(), head2) == st3);
    assert(st2.title.len() == 0 && st2.acc == st1.acc && st2.level == l as nat);
    assert(st3.title == events[p + 1]->Text_0);
    assert(st3.title.len() > 0);
    assert(st3.acc == st1.acc && st3.level == l as nat);

    lemma_hcount_split(events, p + 2);
    lemma_hcount_split(head2, p);
    assert(!(events[p + 1] is HeadingStart));
    assert(hcount(head2) == 1);
    assert(hlevels(head2) =~= seq![l as nat]);
    assert(hlevels(events) =~= seq![l as nat] + hlevels(rest2));
}

#[verifier::rlimit(100)]
#[verifier::spinoff_prover]
proof fn lemma_sections_decompose(events: Seq<MdEventV>)
    requires
        well_titled(events),
        hcount(events) > 0,
    ensures
        sec_fold(sec_init(), events).title.len() > 0,
        sec_fold(sec_init(), events).acc.len() + 1 == hcount(events),
        sec_levels(sec_fold(sec_init(), events).acc).push(sec_fold(sec_init(), events).level)
            == hlevels(events),
{
    lemma_fold_to_first_title(events);
    let p = first_heading(events);
    let l = events[p]->HeadingStart_0;
    let rest2 = events.subrange(p + 2, events.len() as int);
    let st3 = sec_fold(sec_init(), events.subrange(0, p + 2));
    lemma_well_titled_suffix(events, p + 2);
    lemma_fold_titled(st3, rest2);
    let fin = sec_fold(sec_init(), events);
    assert(fin == sec_fold(st3, rest2));
    assert(fin.title.len() > 0);
    assert(fin.acc.len() == st3.acc.len() + hcount(rest2));
    assert(sec_levels(st3.acc).push(st3.level) =~= seq![l as nat]) by {
        assert(st3.acc.len() == 0);
        assert(sec_levels(st3.acc).len() == 0);
    }
    assert(sec_levels(fin.acc).push(fin.level) == seq![l as nat] + hlevels(rest2));
}

/// One section per heading: when every heading carries a title, a document
/// with headings splits into exactly one section per heading, and section
/// `j` records the level of heading `j`.
pub proof fn lemma_sections_per_heading(events: Seq<MdEventV>, doc: Seq<char>)
    requires
        well_titled(events),
        hcount(events) > 0,
    ensures
        sections_spec(events, doc).len() == hcount(events),
        forall|j: int|
            0 <= j < hcount(events) ==> (#[trigger] sections_spec(events, doc)[j]).2 == hlevels(
                events,
            )[j],
{
    lemma_sections_decompose(events);
    let fin = sec_fold(sec_init(), events);
    let all = fin.acc.push((fin.title, trim_spec(fin.content), fin.level));
    assert(sections_spec(events, doc) == all);
    assert(all.len() == hcount(events));
    assert forall|j: int| 0 <= j < hcount(events) implies (#[trigger] sections_spec(
        events,
        doc,
    )[j]).2 == hlevels(events)[j] by {
        assert(sec_levels(all)[j] == all[j].2);
        assert(sec_levels(all) =~= sec_levels(fin.acc).push(fin.level)) by {
            assert forall|k: int| 0 <= k < all.len() implies sec_levels(all)[k] == sec_levels(
                fin.acc,
            ).push(fin.level)[k] by {
                if k < fin.acc.len() {
                    assert(all[k] == fin.acc[k]);
                    assert(sec_levels(fin.acc)[k] == fin.acc[k].2);
                }
            }
        }
        assert(sec_levels(all)[j] == hlevels(events)[j]);
    }
}

/// A non-empty document without headings splits into exactly one section.
pub proof fn lemma_sections_no_heading(events: Seq<MdEventV>, doc: Seq<char>)
    requires
        hcount(events) == 0,
        doc.len() > 0,
    ensures
        sections_spec(events, doc).len() == 1,
{
    assert(forall|i: int| 0 <= i < events.len() ==> !((#[trigger] events[i]) is HeadingStart)) by {
        if exists|i: int| 0 <= i < events.len() && (#[trigger] events[i]) is HeadingStart {
            let i = choose|i: int|
                0 <= i < events.len() && (#[trigger] events[i]) is HeadingStart;
            lemma_hcount_cat(events.subrange(0, i), events.subrange(i, events.len() as int));
            assert(events =~= events.subrange(0, i) + events.subrange(i, events.len() as int));
            let suf = events.subrange(i, events.len() as int);
            assert(suf[0] == events[i]);
            assert(hcount(suf) >= 1);
        }
    }
    lemma_fold_untitled(sec_init(), events);
    let fin = sec_fold(sec_init(), events);
    assert(fin.acc.len() == 0);
    if fin.content.len() > 0 {
        assert(sections_spec(events, doc).len() == 1);
    } else {
        assert(sections_spec(events, doc) == seq![(Seq::<char>::empty(), doc, 0nat)]);
    }
}

} // verus!
