//! Structured-data (JSON) provider: a small Markdown rendering of
//! structured values, and the recursive tree walk that turns a document
//! into chunks.
use crate::models::{chunks_view, jv_view_obj, lemma_jv_view_obj, meta_dup, opt_string_view, result_wf,
    ChunkV, ContentChunk, ContentMetadata, ContentProcessingResult, ContentType, JsonV, JsonValue,
    MetaMap, MetaMapV, MetadataV, ProcessError};
use crate::strutil::{dec_of, is_digit, lemma_cat_cancel, lemma_dec_of_digits,
    lemma_dec_sep_injective, repeat_seq, repeat_str, str_eq, usize_to_dec};
use vstd::prelude::*;
use vstd::string::*;

verus! {

#[derive(Debug, Clone, Copy, PartialEq, Eq, Structural)]
pub struct JsonProvider;

/// Whether an object carries a `kind` entry.
pub open spec fn has_kind(entries: Seq<(Seq<char>, JsonV)>) -> bool {
    exists|i: int| 0 <= i < entries.len() && (#[trigger] entries[i]).0 == "kind"@
}

/// The value of the first `kind` entry (`Null` when there is none).
pub open spec fn kind_value(entries: Seq<(Seq<char>, JsonV)>) -> JsonV
    decreases entries.len(),
{
    if entries.len() == 0 {
        JsonV::Null
    } else if entries[0].0 == "kind"@ {
        entries[0].1
    } else {
        kind_value(entries.subrange(1, entries.len() as int))
    }
}

/// The heading text derived from `kind`: its string value, or `Unknown` for
/// any other shape.
pub open spec fn kind_title(entries: Seq<(Seq<char>, JsonV)>) -> Seq<char> {
    match kind_value(entries) {
        JsonV::Str(s) => s,
        _ => "Unknown"@,
    }
}

/// Lines joined by a separator; no trailing separator.
pub open spec fn join_sep(lines: Seq<Seq<char>>, sep: Seq<char>) -> Seq<char>
    decreases lines.len(),
{
    if lines.len() == 0 {
        Seq::empty()
    } else if lines.len() == 1 {
        lines[0]
    } else {
        lines[0] + sep + join_sep(lines.subrange(1, lines.len() as int), sep)
    }
}

proof fn lemma_join_sep_snoc(lines: Seq<Seq<char>>, x: Seq<char>, sep: Seq<char>)
    ensures
        lines.len() == 0 ==> join_sep(lines.push(x), sep) == x,
        lines.len() > 0 ==> join_sep(lines.push(x), sep) == join_sep(lines, sep) + sep + x,
    decreases lines.len(),
{
    if lines.len() == 0 {
        assert(lines.push(x)[0] == x);
        assert(lines.push(x).len() == 1);
    } else {
        assert(lines.push(x)[0] == lines[0]);
        assert(lines.push(x).subrange(1, lines.len() as int + 1) =~= lines.subrange(
            1,
            lines.len() as int,
        ).push(x));
        lemma_join_sep_snoc(lines.subrange(1, lines.len() as int), x, sep);
        if lines.len() == 1 {
            assert(lines.subrange(1, 1).len() == 0);
            assert(join_sep(lines.push(x), sep) =~= join_sep(lines, sep) + sep + x);
        } else {
            assert(join_sep(lines.push(x), sep) =~= join_sep(lines, sep) + sep + x);
        }
    }
}

/// One indentation step deeper, clamped at the machine's integer limit.
pub open spec fn bump(i: nat) -> nat {
    if i < usize::MAX as nat {
        (i + 1) as nat
    } else {
        i
    }
}

/// The Markdown rendering of a structured value at an indent level: scalars
/// rendered directly, arrays as indexed lines in brackets, objects as one
/// bullet per entry (the `kind` entry, when present, becomes a heading
/// instead).
pub open spec fn json_md(v: JsonV, ind: nat) -> Seq<char>
    decreases v,
    via json_md_decreases
{
    match v {
        JsonV::Null => "null"@,
        JsonV::Bool(b) => if b {
            "true"@
        } else {
            "false"@
        },
        JsonV::Num(s) => s,
        JsonV::Str(s) => "\""@ + s + "\""@,
        JsonV::Arr(items) => "[\n"@ + join_sep(arr_lines(items, 0, ind), ",\n"@) + "\n"@
            + repeat_seq("  "@, ind) + "]"@,
        JsonV::Obj(entries) => if has_kind(entries) {
            "## "@ + kind_title(entries) + "\n"@ + join_sep(obj_lines(entries, ind), "\n"@)
        } else {
            join_sep(obj_lines(entries, ind), "\n"@)
        },
    }
}

/// The rendered lines of an array's items, starting at item index `idx`.
pub open spec fn arr_lines(items: Seq<JsonV>, idx: nat, ind: nat) -> Seq<Seq<char>>
    decreases items,
    via arr_lines_decreases
{
    if items.len() == 0 {
        Seq::empty()
    } else {
        seq![
            repeat_seq("  "@, ind) + "["@ + dec_of(idx) + "]: "@ + json_md(items[0], bump(ind)),
        ] + arr_lines(items.subrange(1, items.len() as int), idx + 1, ind)
    }
}

/// The rendered lines of an object's entries, one bullet per entry, the
/// `kind` entry skipped.
pub open spec fn obj_lines(entries: Seq<(Seq<char>, JsonV)>, ind: nat) -> Seq<Seq<char>>
    decreases entries,
    via obj_lines_decreases
{
    if entries.len() == 0 {
        Seq::empty()
    } else if entries[0].0 == "kind"@ {
        obj_lines(entries.subrange(1, entries.len() as int), ind)
    } else {
        seq![
            repeat_seq("  "@, ind) + "- **"@ + entries[0].0 + "**: "@ + json_md(
                entries[0].1,
                bump(ind),
            ),
        ] + obj_lines(entries.subrange(1, entries.len() as int), ind)
    }
}

/// An object's bullet lines, joined by newlines.
pub open spec fn obj_md(entries: Seq<(Seq<char>, JsonV)>, ind: nat) -> Seq<char> {
    join_sep(obj_lines(entries, ind), "\n"@)
}

#[via_fn]
proof fn json_md_decreases(v: JsonV, ind: nat) {
    broadcast use vstd::seq::axiom_seq_index_decreases, vstd::seq::axiom_seq_subrange_decreases;

    match v {
        JsonV::Arr(items) => {
            assert(decreases_to!(v => items));
        },
        JsonV::Obj(entries) => {
            assert(decreases_to!(v => entries));
        },
        _ => {},
    }
}

#[via_fn]
proof fn arr_lines_decreases(items: Seq<JsonV>, idx: nat, ind: nat) {
    broadcast use vstd::seq::axiom_seq_index_decreases, vstd::seq::axiom_seq_subrange_decreases;

    if items.len() > 0 {
        assert(decreases_to!(items => items[0]));
        assert(decreases_to!(items => items.subrange(1, items.len() as int)));
    }
}

#[via_fn]
proof fn obj_lines_decreases(entries: Seq<(Seq<char>, JsonV)>, ind: nat) {
    broadcast use vstd::seq::axiom_seq_index_decreases, vstd::seq::axiom_seq_subrange_decreases;

    if entries.len() > 0 {
        assert(decreases_to!(entries => entries[0]));
        assert(decreases_to!(entries[0] => entries[0].1));
        assert(decreases_to!(entries => entries.subrange(1, entries.len() as int)));
    }
}

proof fn lemma_arr_lines_snoc(items: Seq<JsonV>, x: JsonV, idx: nat, ind: nat)
    ensures
        arr_lines(items.push(x), idx, ind) == arr_lines(items, idx, ind) + seq![
            repeat_seq("  "@, ind) + "["@ + dec_of((idx + items.len()) as nat) + "]: "@ + json_md(
                x,
                bump(ind),
            ),
        ],
    decreases items.len(),
{
    if items.len() == 0 {
        assert(items.push(x)[0] == x);
        assert(items.push(x).subrange(1, 1) =~= Seq::<JsonV>::empty());
        assert(arr_lines(items.push(x).subrange(1, 1), idx + 1, ind) == Seq::<Seq<char>>::empty());
        assert(arr_lines(items.push(x), idx, ind) =~= arr_lines(items, idx, ind) + seq![
            repeat_seq("  "@, ind) + "["@ + dec_of(idx) + "]: "@ + json_md(x, bump(ind)),
        ]);
    } else {
        assert(items.push(x)[0] == items[0]);
        assert(items.push(x).subrange(1, items.len() as int + 1) =~= items.subrange(
            1,
            items.len() as int,
        ).push(x));
        lemma_arr_lines_snoc(items.subrange(1, items.len() as int), x, idx + 1, ind);
        assert(arr_lines(items.push(x), idx, ind) =~= arr_lines(items, idx, ind) + seq![
            repeat_seq("  "@, ind) + "["@ + dec_of((idx + items.len()) as nat) + "]: "@ + json_md(
                x,
                bump(ind),
            ),
        ]);
    }
}

proof fn lemma_obj_lines_snoc(entries: Seq<(Seq<char>, JsonV)>, e: (Seq<char>, JsonV), ind: nat)
    ensures
        e.0 == "kind"@ ==> obj_lines(entries.push(e), ind) == obj_lines(entries, ind),
        e.0 != "kind"@ ==> obj_lines(entries.push(e), ind) == obj_lines(entries, ind) + seq![
            repeat_seq("  "@, ind) + "- **"@ + e.0 + "**: "@ + json_md(e.1, bump(ind)),
        ],
    decreases entries.len(),
{
    if entries.len() == 0 {
        assert(entries.push(e)[0] == e);
        assert(entries.push(e).len() == 1);
        assert(entries.push(e).subrange(1, 1) =~= Seq::<(Seq<char>, JsonV)>::empty());
        assert(obj_lines(entries.push(e).subrange(1, 1), ind) == obj_lines(
            Seq::<(Seq<char>, JsonV)>::empty(),
            ind,
        ));
        assert(obj_lines(Seq::<(Seq<char>, JsonV)>::empty(), ind) == Seq::<Seq<char>>::empty());
        assert(obj_lines(entries, ind) == Seq::<Seq<char>>::empty());
        if e.0 == "kind"@ {
            assert(obj_lines(entries.push(e), ind) == obj_lines(entries.push(e).subrange(1, 1), ind));
            assert(obj_lines(entries.push(e), ind) =~= obj_lines(entries, ind));
        } else {
            assert(obj_lines(entries.push(e), ind) == seq![
                repeat_seq("  "@, ind) + "- **"@ + entries.push(e)[0].0 + "**: "@ + json_md(
                    entries.push(e)[0].1,
                    bump(ind),
                ),
            ] + obj_lines(entries.push(e).subrange(1, 1), ind));
            assert(obj_lines(entries.push(e), ind) =~= obj_lines(entries, ind) + seq![
                repeat_seq("  "@, ind) + "- **"@ + e.0 + "**: "@ + json_md(e.1, bump(ind)),
            ]);
        }
    } else {
        let rest = entries.subrange(1, entries.len() as int);
        assert(entries.push(e)[0] == entries[0]);
        assert(entries.push(e).subrange(1, entries.len() as int + 1) =~= rest.push(e));
        lemma_obj_lines_snoc(rest, e, ind);
        if entries[0].0 == "kind"@ {
            assert(obj_lines(entries.push(e), ind) == obj_lines(rest.push(e), ind));
            assert(obj_lines(entries, ind) == obj_lines(rest, ind));
        } else {
            let line0 = repeat_seq("  "@, ind) + "- **"@ + entries[0].0 + "**: "@ + json_md(
                entries[0].1,
                bump(ind),
            );
            assert(obj_lines(entries.push(e), ind) == seq![line0] + obj_lines(rest.push(e), ind));
            assert(obj_lines(entries, ind) == seq![line0] + obj_lines(rest, ind));
        }
        if e.0 == "kind"@ {
            assert(obj_lines(entries.push(e), ind) =~= obj_lines(entries, ind));
        } else {
            assert(obj_lines(entries.push(e), ind) =~= obj_lines(entries, ind) + seq![
                repeat_seq("  "@, ind) + "- **"@ + e.0 + "**: "@ + json_md(e.1, bump(ind)),
            ]);
        }
    }
}

/// Joins rendered lines with a separator, no trailing separator.
fn join_strings(lines: &Vec<String>, sep: &str) -> (r: String)
    ensures
        r@ == join_sep(lines.deep_view(), sep@),
{
    let ghost lv = lines.deep_view();
    let mut out = String::new();
    let mut i: usize = 0;
    while i < lines.len()
        invariant
            lv == lines.deep_view(),
            lv.len() == lines@.len(),
            i <= lines@.len(),
            out@ == join_sep(lv.subrange(0, i as int), sep@),
        decreases lines@.len() - i,
    {
        proof {
            assert(lv.subrange(0, i as int + 1) =~= lv.subrange(0, i as int).push(lv[i as int]));
            lemma_join_sep_snoc(lv.subrange(0, i as int), lv[i as int], sep@);
            assert(lv[i as int] == lines@[i as int]@);
        }
        if i > 0 {
            out.append(sep);
        }
        out.append(lines[i].as_str());
        i = i + 1;
    }
    proof {
        assert(lv.subrange(0, lv.len() as int) =~= lv);
    }
    out
}

fn has_kind_exec(entries: &Vec<(String, JsonValue)>) -> (r: bool)
    ensures
        r == has_kind(jv_view_obj(entries@)),
{
    proof {
        lemma_jv_view_obj(entries@);
    }
    let mut i: usize = 0;
    while i < entries.len()
        invariant
            i <= entries@.len(),
            jv_view_obj(entries@).len() == entries@.len(),
            forall|j: int|
                0 <= j < entries@.len() ==> #[trigger] jv_view_obj(entries@)[j].0 == entries@[j].0@,
            forall|j: int| 0 <= j < i as int ==> #[trigger] entries@[j].0@ != "kind"@,
        decreases entries@.len() - i,
    {
        if str_eq(entries[i].0.as_str(), "kind") {
            proof {
                assert(jv_view_obj(entries@)[i as int].0 == "kind"@);
            }
            return true;
        }
        i = i + 1;
    }
    proof {
        assert(!has_kind(jv_view_obj(entries@))) by {
            if has_kind(jv_view_obj(entries@)) {
                let j = choose|j: int|
                    0 <= j < jv_view_obj(entries@).len() && (#[trigger] jv_view_obj(
                        entries@,
                    )[j]).0 == "kind"@;
                assert(entries@[j].0@ != "kind"@);
            }
        }
    }
    false
}

fn kind_value_exec(entries: &Vec<(String, JsonValue)>) -> (r: JsonValue)
    ensures
        r@ == kind_value(jv_view_obj(entries@)),
{
    proof {
        lemma_jv_view_obj(entries@);
    }
    proof {
        assert(jv_view_obj(entries@).subrange(0, entries@.len() as int) =~= jv_view_obj(
            entries@,
        ));
    }
    let mut i: usize = 0;
    while i < entries.len()
        invariant
            i <= entries@.len(),
            jv_view_obj(entries@).len() == entries@.len(),
            forall|j: int|
                0 <= j < entries@.len() ==> #[trigger] jv_view_obj(entries@)[j] == (
                    entries@[j].0@,
                    crate::models::jv_view(entries@[j].1),
                ),
            kind_value(jv_view_obj(entries@)) == kind_value(
                jv_view_obj(entries@).subrange(i as int, entries@.len() as int),
            ),
        decreases entries@.len() - i,
    {
        let ghost ev = jv_view_obj(entries@);
        proof {
            assert(ev.subrange(i as int, entries@.len() as int)[0] == ev[i as int]);
        }
        if str_eq(entries[i].0.as_str(), "kind") {
            return entries[i].1.duplicate();
        }
        proof {
            assert(ev.subrange(i as int, entries@.len() as int).subrange(
                1,
                ev.subrange(i as int, entries@.len() as int).len() as int,
            ) =~= ev.subrange(i as int + 1, entries@.len() as int));
        }
        i = i + 1;
    }
    proof {
        assert(jv_view_obj(entries@).subrange(
            entries@.len() as int,
            entries@.len() as int,
        ).len() == 0);
    }
    JsonValue::Null
}

impl JsonProvider {
    pub fn new() -> (r: Self)
        ensures
            r == (JsonProvider {}),
    {
        JsonProvider
    }

    /// Renders a structured value as Markdown at the given indent level.
    pub fn json_to_markdown(&self, value: &JsonValue, indent: usize) -> (r: String)
        ensures
            r@ == json_md(value@, indent as nat),
        decreases *value,
    {
        match value {
            JsonValue::Null => "null".to_owned(),
            JsonValue::Bool(b) => if *b {
                "true".to_owned()
            } else {
                "false".to_owned()
            },
            JsonValue::Num(s) => s.clone(),
            JsonValue::Str(s) => {
                let mut out = "\"".to_owned();
                out.append(s.as_str());
                out.append("\"");
                proof {
                    assert(out@ =~= json_md(value@, indent as nat));
                }
                out
            },
            JsonValue::Arr(items) => {
                let next = if indent < usize::MAX {
                    indent + 1
                } else {
                    indent
                };
                let mut lines: Vec<String> = Vec::new();
                proof {
                    crate::models::lemma_jv_view_arr(items@);
                    assert(crate::models::jv_view_arr(items@).subrange(0, 0)
                        =~= Seq::<JsonV>::empty());
                    assert(lines.deep_view() =~= Seq::<Seq<char>>::empty());
                }
                let mut i: usize = 0;
                while i < items.len()
                    invariant
                        *value == JsonValue::Arr(*items),
                        next as nat == bump(indent as nat),
                        i <= items@.len(),
                        lines.deep_view() == arr_lines(
                            crate::models::jv_view_arr(items@).subrange(0, i as int),
                            0,
                            indent as nat,
                        ),
                        crate::models::jv_view_arr(items@).len() == items@.len(),
                        forall|j: int|
                            0 <= j < items@.len() ==> #[trigger] crate::models::jv_view_arr(
                                items@,
                            )[j] == crate::models::jv_view(items@[j]),
                    decreases items@.len() - i,
                {
                    proof {
                        broadcast use vstd::seq::axiom_seq_index_decreases;

                        crate::models::lemma_jv_view_arr(items@);
                        assert(decreases_to!(*value => value->Arr_0));
                        assert(decreases_to!(*items => items@));
                    }
                    let rendered = self.json_to_markdown(&items[i], next);
                    let ind_str = repeat_str("  ", indent);
                    let mut line = ind_str;
                    line.append("[");
                    let num = usize_to_dec(i);
                    line.append(num.as_str());
                    line.append("]: ");
                    line.append(rendered.as_str());
                    proof {
                        reveal_strlit("[");
                        reveal_strlit("]: ");
                        let av = crate::models::jv_view_arr(items@);
                        let pre = av.subrange(0, i as int);
                        lemma_arr_lines_snoc(pre, av[i as int], 0, indent as nat);
                        assert(pre.push(av[i as int]) =~= av.subrange(0, i as int + 1));
                        assert(line@ == repeat_seq("  "@, indent as nat) + "["@ + dec_of(
                            i as nat,
                        ) + "]: "@ + json_md(av[i as int], bump(indent as nat)));
                        assert(lines.deep_view().push(line@) =~= arr_lines(
                            av.subrange(0, i as int + 1),
                            0,
                            indent as nat,
                        ));
                    }
                    lines.push(line);
                    proof {
                        assert(lines.deep_view() =~= lines.deep_view().subrange(
                            0,
                            lines.deep_view().len() - 1,
                        ).push(line@));
                    }
                    i = i + 1;
                }
                proof {
                    let av = crate::models::jv_view_arr(items@);
                    assert(av.subrange(0, av.len() as int) =~= av);
                }
                let joined = join_strings(&lines, ",\n");
                let mut out = "[\n".to_owned();
                out.append(joined.as_str());
                out.append("\n");
                let ind_str = repeat_str("  ", indent);
                out.append(ind_str.as_str());
                out.append("]");
                proof {
                    reveal_strlit("\n");
                    reveal_strlit("]");
                    assert(out@ =~= json_md(value@, indent as nat));
                }
                out
            },
            JsonValue::Obj(entries) => {
                let next = if indent < usize::MAX {
                    indent + 1
                } else {
                    indent
                };
                let mut lines: Vec<String> = Vec::new();
                proof {
                    lemma_jv_view_obj(entries@);
                    assert(jv_view_obj(entries@).subrange(0, 0) =~= Seq::<
                        (Seq<char>, JsonV),
                    >::empty());
                    assert(lines.deep_view() =~= Seq::<Seq<char>>::empty());
                }
                let mut i: usize = 0;
                while i < entries.len()
                    invariant
                        *value == JsonValue::Obj(*entries),
                        next as nat == bump(indent as nat),
                        i <= entries@.len(),
                        lines.deep_view() == obj_lines(
                            jv_view_obj(entries@).subrange(0, i as int),
                            indent as nat,
                        ),
                        jv_view_obj(entries@).len() == entries@.len(),
                        forall|j: int|
                            0 <= j < entries@.len() ==> #[trigger] jv_view_obj(entries@)[j] == (
                                entries@[j].0@,
                                crate::models::jv_view(entries@[j].1),
                            ),
                    decreases entries@.len() - i,
                {
                    let ghost ev = jv_view_obj(entries@);
                    proof {
                        assert(ev.subrange(0, i as int + 1) =~= ev.subrange(0, i as int).push(
                            ev[i as int],
                        ));
                        lemma_obj_lines_snoc(ev.subrange(0, i as int), ev[i as int], indent as nat);
                    }
                    if str_eq(entries[i].0.as_str(), "kind") {
                        proof {
                            assert(ev[i as int].0 == "kind"@);
                        }
                    } else {
                        proof {
                            broadcast use vstd::seq::axiom_seq_index_decreases;

                            assert(decreases_to!(*value => value->Obj_0));
                            assert(decreases_to!(*entries => entries@));
                            assert(decreases_to!(entries@[i as int] => entries@[i as int].1));
                        }
                        let rendered = self.json_to_markdown(&entries[i].1, next);
                        let ind_str = repeat_str("  ", indent);
                        let mut line = ind_str;
                        line.append("- **");
                        line.append(entries[i].0.as_str());
                        line.append("**: ");
                        line.append(rendered.as_str());
                        proof {
                            reveal_strlit("- **");
                            reveal_strlit("**: ");
                            assert(line@ == repeat_seq("  "@, indent as nat) + "- **"@
                                + ev[i as int].0 + "**: "@ + json_md(
                                ev[i as int].1,
                                bump(indent as nat),
                            ));
                            assert(lines.deep_view().push(line@) =~= obj_lines(
                                ev.subrange(0, i as int + 1),
                                indent as nat,
                            ));
                        }
                        lines.push(line);
                        proof {
                            assert(lines.deep_view() =~= lines.deep_view().subrange(
                                0,
                                lines.deep_view().len() - 1,
                            ).push(line@));
                        }
                    }
                    i = i + 1;
                }
                proof {
                    let ev = jv_view_obj(entries@);
                    assert(ev.subrange(0, ev.len() as int) =~= ev);
                }
                let joined = join_strings(&lines, "\n");
                if has_kind_exec(entries) {
                    let mut out = "## ".to_owned();
                    let kv = kind_value_exec(entries);
                    match &kv {
                        JsonValue::Str(s) => {
                            out.append(s.as_str());
                        },
                        _ => {
                            out.append("Unknown");
                        },
                    }
                    out.append("\n");
                    out.append(joined.as_str());
                    proof {
                        reveal_strlit("\n");
                        assert(out@ =~= json_md(value@, indent as nat));
                    }
                    out
                } else {
                    proof {
                        assert(joined@ =~= json_md(value@, indent as nat));
                    }
                    joined
                }
            },
        }
    }
}



} // verus!

verus! {

/// The path of an object member below `path`.
pub open spec fn child_path(path: Seq<char>, key: Seq<char>) -> Seq<char> {
    if path.len() == 0 {
        key
    } else {
        path + "."@ + key
    }
}

/// The path of an array element below `path`.
pub open spec fn arr_path(path: Seq<char>, idx: nat) -> Seq<char> {
    path + "["@ + dec_of(idx) + "]"@
}

/// A chunk as the tree walk produces it: its path, its rendered content,
/// and its metadata.
pub type RawChunkV = (Seq<char>, Seq<char>, MetaMapV);

/// The single-value chunk of a leaf that no `kind` chunk covers.
pub open spec fn leaf_chunk(v: JsonV, path: Seq<char>) -> RawChunkV {
    (path, json_md(v, 0), seq![("path"@, JsonV::Str(path))])
}

/// The chunk of an object that carries a `kind` entry.
pub open spec fn kind_chunk(entries: Seq<(Seq<char>, JsonV)>, path: Seq<char>) -> RawChunkV {
    (
        path,
        json_md(JsonV::Obj(entries), 0),
        seq![("path"@, JsonV::Str(path)), ("kind"@, kind_value(entries))],
    )
}

/// The chunks of the subtree at `v`, reached at `path`; `covered` says
/// whether an ancestor already produced a `kind` chunk covering this
/// subtree. Every object with a `kind` entry produces exactly one chunk and
/// the walk continues into its children; a leaf not covered by any `kind`
/// chunk becomes a single-value chunk at a non-empty path.
pub open spec fn jc(v: JsonV, path: Seq<char>, covered: bool) -> Seq<RawChunkV>
    decreases v,
    via jc_decreases
{
    match v {
        JsonV::Obj(entries) => {
            let own: Seq<RawChunkV> = if has_kind(entries) {
                seq![kind_chunk(entries, path)]
            } else {
                Seq::empty()
            };
            let all = own + jc_obj(entries, path, covered || has_kind(entries));
            if all.len() == 0 && path.len() > 0 && !covered {
                seq![leaf_chunk(v, path)]
            } else {
                all
            }
        },
        JsonV::Arr(items) => {
            let all = jc_arr(items, path, covered, 0);
            if all.len() == 0 && path.len() > 0 && !covered {
                seq![leaf_chunk(v, path)]
            } else {
                all
            }
        },
        _ => {
            if path.len() > 0 && !covered {
                seq![leaf_chunk(v, path)]
            } else {
                Seq::empty()
            }
        },
    }
}

pub open spec fn jc_obj(
    entries: Seq<(Seq<char>, JsonV)>,
    path: Seq<char>,
    covered: bool,
) -> Seq<RawChunkV>
    decreases entries,
    via jc_obj_decreases
{
    if entries.len() == 0 {
        Seq::empty()
    } else {
        jc(entries[0].1, child_path(path, entries[0].0), covered) + jc_obj(
            entries.subrange(1, entries.len() as int),
            path,
            covered,
        )
    }
}

pub open spec fn jc_arr(items: Seq<JsonV>, path: Seq<char>, covered: bool, idx: nat) -> Seq<
    RawChunkV,
>
    decreases items,
    via jc_arr_decreases
{
    if items.len() == 0 {
        Seq::empty()
    } else {
        jc(items[0], arr_path(path, idx), covered) + jc_arr(
            items.subrange(1, items.len() as int),
            path,
            covered,
            idx + 1,
        )
    }
}

#[via_fn]
proof fn jc_decreases(v: JsonV, path: Seq<char>, covered: bool) {
    match v {
        JsonV::Arr(items) => {
            assert(decreases_to!(v => items));
        },
        JsonV::Obj(entries) => {
            assert(decreases_to!(v => entries));
        },
        _ => {},
    }
}

#[via_fn]
proof fn jc_obj_decreases(entries: Seq<(Seq<char>, JsonV)>, path: Seq<char>, covered: bool) {
    broadcast use vstd::seq::axiom_seq_index_decreases, vstd::seq::axiom_seq_subrange_decreases;

    if entries.len() > 0 {
        assert(decreases_to!(entries => entries[0]));
        assert(decreases_to!(entries[0] => entries[0].1));
        assert(decreases_to!(entries => entries.subrange(1, entries.len() as int)));
    }
}

#[via_fn]
proof fn jc_arr_decreases(items: Seq<JsonV>, path: Seq<char>, covered: bool, idx: nat) {
    broadcast use vstd::seq::axiom_seq_index_decreases, vstd::seq::axiom_seq_subrange_decreases;

    if items.len() > 0 {
        assert(decreases_to!(items => items[0]));
        assert(decreases_to!(items => items.subrange(1, items.len() as int)));
    }
}

/// The chunks of a whole document: the walk's chunks, or, when the walk
/// produced none (a bare scalar document), the whole document as one chunk
/// with an empty path.
pub open spec fn json_raw_chunks(v: JsonV) -> Seq<RawChunkV> {
    let cs = jc(v, Seq::empty(), false);
    if cs.len() == 0 {
        seq![leaf_chunk(v, Seq::empty())]
    } else {
        cs
    }
}

proof fn lemma_jc_obj_snoc(
    entries: Seq<(Seq<char>, JsonV)>,
    e: (Seq<char>, JsonV),
    path: Seq<char>,
    covered: bool,
)
    ensures
        jc_obj(entries.push(e), path, covered) == jc_obj(entries, path, covered) + jc(
            e.1,
            child_path(path, e.0),
            covered,
        ),
    decreases entries.len(),
{
    if entries.len() == 0 {
        assert(entries.push(e)[0] == e);
        assert(entries.push(e).len() == 1);
        assert(entries.push(e).subrange(1, 1) =~= Seq::<(Seq<char>, JsonV)>::empty());
        assert(jc_obj(entries.push(e).subrange(1, 1), path, covered) == Seq::<RawChunkV>::empty());
        assert(jc_obj(entries.push(e), path, covered) == jc(e.1, child_path(path, e.0), covered)
            + jc_obj(entries.push(e).subrange(1, 1), path, covered));
        assert(jc_obj(entries.push(e), path, covered) =~= jc_obj(entries, path, covered) + jc(
            e.1,
            child_path(path, e.0),
            covered,
        ));
    } else {
        assert(entries.push(e)[0] == entries[0]);
        assert(entries.push(e).subrange(1, entries.len() as int + 1) =~= entries.subrange(
            1,
            entries.len() as int,
        ).push(e));
        lemma_jc_obj_snoc(entries.subrange(1, entries.len() as int), e, path, covered);
        assert(jc_obj(entries.push(e), path, covered) =~= jc_obj(entries, path, covered) + jc(
            e.1,
            child_path(path, e.0),
            covered,
        ));
    }
}

proof fn lemma_jc_arr_snoc(items: Seq<JsonV>, x: JsonV, path: Seq<char>, covered: bool, idx: nat)
    ensures
        jc_arr(items.push(x), path, covered, idx) == jc_arr(items, path, covered, idx) + jc(
            x,
            arr_path(path, (idx + items.len()) as nat),
            covered,
        ),
    decreases items.len(),
{
    if items.len() == 0 {
        assert(items.push(x)[0] == x);
        assert(items.push(x).len() == 1);
        assert(items.push(x).subrange(1, 1) =~= Seq::<JsonV>::empty());
        assert(jc_arr(items.push(x).subrange(1, 1), path, covered, idx + 1) == Seq::<
            RawChunkV,
        >::empty());
        assert(jc_arr(items.push(x), path, covered, idx) == jc(x, arr_path(path, idx), covered)
            + jc_arr(items.push(x).subrange(1, 1), path, covered, idx + 1));
        assert(jc_arr(items.push(x), path, covered, idx) =~= jc_arr(items, path, covered, idx)
            + jc(x, arr_path(path, (idx + items.len()) as nat), covered));
    } else {
        assert(items.push(x)[0] == items[0]);
        assert(items.push(x).subrange(1, items.len() as int + 1) =~= items.subrange(
            1,
            items.len() as int,
        ).push(x));
        lemma_jc_arr_snoc(items.subrange(1, items.len() as int), x, path, covered, idx + 1);
        assert(jc_arr(items.push(x), path, covered, idx) =~= jc_arr(items, path, covered, idx)
            + jc(x, arr_path(path, (idx + items.len()) as nat), covered));
    }
}

/// The model of the tuples the tree walk returns.
pub open spec fn raw_view(s: Seq<(String, String, MetaMap)>) -> Seq<RawChunkV> {
    Seq::new(s.len(), |i: int| (s[i].0@, s[i].1@, jv_view_obj(s[i].2@)))
}

fn child_path_exec(path: &String, key: &String) -> (r: String)
    ensures
        r@ == child_path(path@, key@),
{
    if path.as_str().is_empty() {
        key.clone()
    } else {
        let mut out = path.clone();
        out.append(".");
        out.append(key.as_str());
        proof {
            reveal_strlit(".");
            assert(out@ =~= child_path(path@, key@));
        }
        out
    }
}

fn arr_path_exec(path: &String, idx: usize) -> (r: String)
    ensures
        r@ == arr_path(path@, idx as nat),
{
    let mut out = path.clone();
    out.append("[");
    let num = usize_to_dec(idx);
    out.append(num.as_str());
    out.append("]");
    proof {
        reveal_strlit("[");
        reveal_strlit("]");
        assert(out@ =~= arr_path(path@, idx as nat));
    }
    out
}

impl JsonProvider {
    /// Renders an object's entries as Markdown bullets, the `kind` entry
    /// skipped.
    pub fn object_to_markdown(&self, entries: &Vec<(String, JsonValue)>, indent: usize) -> (r:
        String)
        ensures
            r@ == obj_md(jv_view_obj(entries@), indent as nat),
        decreases *entries,
    {
        let next = if indent < usize::MAX {
            indent + 1
        } else {
            indent
        };
        let mut lines: Vec<String> = Vec::new();
        proof {
            lemma_jv_view_obj(entries@);
            assert(jv_view_obj(entries@).subrange(0, 0) =~= Seq::<(Seq<char>, JsonV)>::empty());
            assert(lines.deep_view() =~= Seq::<Seq<char>>::empty());
        }
        let mut i: usize = 0;
        while i < entries.len()
            invariant
                next as nat == bump(indent as nat),
                i <= entries@.len(),
                lines.deep_view() == obj_lines(
                    jv_view_obj(entries@).subrange(0, i as int),
                    indent as nat,
                ),
                jv_view_obj(entries@).len() == entries@.len(),
                forall|j: int|
                    0 <= j < entries@.len() ==> #[trigger] jv_view_obj(entries@)[j] == (
                        entries@[j].0@,
                        crate::models::jv_view(entries@[j].1),
                    ),
            decreases entries@.len() - i,
        {
            let ghost ev = jv_view_obj(entries@);
            proof {
                assert(ev.subrange(0, i as int + 1) =~= ev.subrange(0, i as int).push(
                    ev[i as int],
                ));
                lemma_obj_lines_snoc(ev.subrange(0, i as int), ev[i as int], indent as nat);
            }
            if str_eq(entries[i].0.as_str(), "kind") {
                proof {
                    assert(ev[i as int].0 == "kind"@);
                }
            } else {
                proof {
                    broadcast use vstd::seq::axiom_seq_index_decreases;

                    assert(decreases_to!(*entries => entries@));
                    assert(decreases_to!(entries@[i as int] => entries@[i as int].1));
                }
                let rendered = self.json_to_markdown(&entries[i].1, next);
                let ind_str = repeat_str("  ", indent);
                let mut line = ind_str;
                line.append("- **");
                line.append(entries[i].0.as_str());
                line.append("**: ");
                line.append(rendered.as_str());
                proof {
                    reveal_strlit("- **");
                    reveal_strlit("**: ");
                    assert(line@ == repeat_seq("  "@, indent as nat) + "- **"@ + ev[i as int].0
                        + "**: "@ + json_md(ev[i as int].1, bump(indent as nat)));
                    assert(lines.deep_view().push(line@) =~= obj_lines(
                        ev.subrange(0, i as int + 1),
                        indent as nat,
                    ));
                }
                lines.push(line);
                proof {
                    assert(lines.deep_view() =~= lines.deep_view().subrange(
                        0,
                        lines.deep_view().len() - 1,
                    ).push(line@));
                }
            }
            i = i + 1;
        }
        proof {
            let ev = jv_view_obj(entries@);
            assert(ev.subrange(0, ev.len() as int) =~= ev);
        }
        join_strings(&lines, "\n")
    }

    /// The tree walk over a document, starting at `path` with no covering
    /// ancestor.
    pub fn extract_chunks(&self, value: &JsonValue, path: String) -> (r: Vec<
        (String, String, MetaMap),
    >)
        ensures
            raw_view(r@) == jc(value@, path@, false),
    {
        self.walk(value, path, false)
    }

    fn walk(&self, value: &JsonValue, path: String, covered: bool) -> (r: Vec<
        (String, String, MetaMap),
    >)
        ensures
            raw_view(r@) == jc(value@, path@, covered),
        decreases *value,
    {
        let mut out: Vec<(String, String, MetaMap)> = Vec::new();
        match value {
            JsonValue::Obj(entries) => {
                let ghost ev = jv_view_obj(entries@);
                proof {
                    lemma_jv_view_obj(entries@);
                }
                let hk = has_kind_exec(entries);
                if hk {
                    let content = self.json_to_markdown(value, 0);
                    let mut meta: MetaMap = Vec::new();
                    meta.push(("path".to_owned(), JsonValue::Str(path.clone())));
                    meta.push(("kind".to_owned(), kind_value_exec(entries)));
                    proof {
                        lemma_jv_view_obj(meta@);
                        assert(jv_view_obj(meta@) =~= seq![
                            ("path"@, JsonV::Str(path@)),
                            ("kind"@, kind_value(ev)),
                        ]);
                    }
                    out.push((path.clone(), content, meta));
                }
                let ghost own = if has_kind(ev) {
                    seq![kind_chunk(ev, path@)]
                } else {
                    Seq::<RawChunkV>::empty()
                };
                proof {
                    assert(raw_view(out@) =~= own + jc_obj(
                        ev.subrange(0, 0),
                        path@,
                        covered || has_kind(ev),
                    ));
                }
                let mut i: usize = 0;
                while i < entries.len()
                    invariant
                        *value == JsonValue::Obj(*entries),
                        ev == jv_view_obj(entries@),
                        ev.len() == entries@.len(),
                        forall|j: int|
                            0 <= j < entries@.len() ==> #[trigger] ev[j] == (
                                entries@[j].0@,
                                crate::models::jv_view(entries@[j].1),
                            ),
                        own == if has_kind(ev) {
                            seq![kind_chunk(ev, path@)]
                        } else {
                            Seq::<RawChunkV>::empty()
                        },
                        hk == has_kind(ev),
                        i <= entries@.len(),
                        raw_view(out@) == own + jc_obj(
                            ev.subrange(0, i as int),
                            path@,
                            covered || has_kind(ev),
                        ),
                    decreases entries@.len() - i,
                {
                    let ghost c2 = covered || has_kind(ev);
                    proof {
                        assert(ev.subrange(0, i as int + 1) =~= ev.subrange(0, i as int).push(
                            ev[i as int],
                        ));
                        lemma_jc_obj_snoc(ev.subrange(0, i as int), ev[i as int], path@, c2);
                        broadcast use vstd::seq::axiom_seq_index_decreases;

                        assert(decreases_to!(*value => value->Obj_0));
                        assert(decreases_to!(*entries => entries@));
                        assert(decreases_to!(entries@[i as int] => entries@[i as int].1));
                    }
                    let cp = child_path_exec(&path, &entries[i].0);
                    let mut sub = self.walk(&entries[i].1, cp, covered || hk);
                    let ghost subv = raw_view(sub@);
                    let ghost outv = raw_view(out@);
                    out.append(&mut sub);
                    proof {
                        assert(raw_view(out@) =~= outv + subv);
                        assert(raw_view(out@) =~= own + jc_obj(
                            ev.subrange(0, i as int + 1),
                            path@,
                            c2,
                        ));
                    }
                    i = i + 1;
                }
                proof {
                    assert(ev.subrange(0, ev.len() as int) =~= ev);
                }
                if out.len() == 0 && !path.as_str().is_empty() && !covered {
                    let content = self.json_to_markdown(value, 0);
                    let mut meta: MetaMap = Vec::new();
                    meta.push(("path".to_owned(), JsonValue::Str(path.clone())));
                    proof {
                        lemma_jv_view_obj(meta@);
                        assert(jv_view_obj(meta@) =~= seq![("path"@, JsonV::Str(path@))]);
                    }
                    out.push((path, content, meta));
                    proof {
                        assert(raw_view(out@) =~= seq![leaf_chunk(value@, path@)]);
                    }
                }
            },
            JsonValue::Arr(items) => {
                let ghost av = crate::models::jv_view_arr(items@);
                proof {
                    crate::models::lemma_jv_view_arr(items@);
                    assert(raw_view(out@) =~= jc_arr(av.subrange(0, 0), path@, covered, 0));
                }
                let mut i: usize = 0;
                while i < items.len()
                    invariant
                        *value == JsonValue::Arr(*items),
                        av == crate::models::jv_view_arr(items@),
                        av.len() == items@.len(),
                        forall|j: int|
                            0 <= j < items@.len() ==> #[trigger] av[j] == crate::models::jv_view(
                                items@[j],
                            ),
                        i <= items@.len(),
                        raw_view(out@) == jc_arr(av.subrange(0, i as int), path@, covered, 0),
                    decreases items@.len() - i,
                {
                    proof {
                        assert(av.subrange(0, i as int + 1) =~= av.subrange(0, i as int).push(
                            av[i as int],
                        ));
                        lemma_jc_arr_snoc(av.subrange(0, i as int), av[i as int], path@, covered, 0);
                        broadcast use vstd::seq::axiom_seq_index_decreases;

                        assert(decreases_to!(*value => value->Arr_0));
                        assert(decreases_to!(*items => items@));
                    }
                    let ap = arr_path_exec(&path, i);
                    let mut sub = self.walk(&items[i], ap, covered);
                    let ghost subv = raw_view(sub@);
                    let ghost outv = raw_view(out@);
                    out.append(&mut sub);
                    proof {
                        assert(raw_view(out@) =~= outv + subv);
                        assert(raw_view(out@) =~= jc_arr(
                            av.subrange(0, i as int + 1),
                            path@,
                            covered,
                            0,
                        ));
                    }
                    i = i + 1;
                }
                proof {
                    assert(av.subrange(0, av.len() as int) =~= av);
                }
                if out.len() == 0 && !path.as_str().is_empty() && !covered {
                    let content = self.json_to_markdown(value, 0);
                    let mut meta: MetaMap = Vec::new();
                    meta.push(("path".to_owned(), JsonValue::Str(path.clone())));
                    proof {
                        lemma_jv_view_obj(meta@);
                        assert(jv_view_obj(meta@) =~= seq![("path"@, JsonV::Str(path@))]);
                    }
                    out.push((path, content, meta));
                    proof {
                        assert(raw_view(out@) =~= seq![leaf_chunk(value@, path@)]);
                    }
                }
            },
            _ => {
                if !path.as_str().is_empty() && !covered {
                    let content = self.json_to_markdown(value, 0);
                    let mut meta: MetaMap = Vec::new();
                    meta.push(("path".to_owned(), JsonValue::Str(path.clone())));
                    proof {
                        lemma_jv_view_obj(meta@);
                        assert(jv_view_obj(meta@) =~= seq![("path"@, JsonV::Str(path@))]);
                    }
                    out.push((path, content, meta));
                    proof {
                        assert(raw_view(out@) =~= seq![leaf_chunk(value@, path@)]);
                    }
                } else {
                    proof {
                        assert(raw_view(out@) =~= Seq::<RawChunkV>::empty());
                    }
                }
            },
        }
        out
    }
}

} // verus!

verus! {

/// How one path character appears in a chunk identifier: dots become
/// underscores, brackets disappear, anything else is kept.
pub open spec fn sanitize_char(c: char) -> Seq<char> {
    if c == '.' {
        seq!['_']
    } else if c == '[' || c == ']' {
        Seq::empty()
    } else {
        seq![c]
    }
}

/// A path as it appears in a chunk identifier.
pub open spec fn sanitize(s: Seq<char>) -> Seq<char>
    decreases s.len(),
{
    if s.len() == 0 {
        Seq::empty()
    } else {
        sanitize_char(s[0]) + sanitize(s.subrange(1, s.len() as int))
    }
}

proof fn lemma_sanitize_snoc(s: Seq<char>, c: char)
    ensures
        sanitize(s.push(c)) == sanitize(s) + sanitize_char(c),
    decreases s.len(),
{
    if s.len() == 0 {
        assert(s.push(c)[0] == c);
        assert(s.push(c).len() == 1);
        assert(s.push(c).subrange(1, 1) =~= Seq::<char>::empty());
        assert(sanitize(s.push(c).subrange(1, 1)) == sanitize(Seq::<char>::empty()));
        assert(sanitize(Seq::<char>::empty()) == Seq::<char>::empty());
        assert(sanitize(s.push(c)) == sanitize_char(c) + sanitize(s.push(c).subrange(1, 1)));
        assert(sanitize(s.push(c)) =~= sanitize(s) + sanitize_char(c));
    } else {
        assert(s.push(c)[0] == s[0]);
        assert(s.push(c).subrange(1, s.len() as int + 1) =~= s.subrange(1, s.len() as int).push(c));
        lemma_sanitize_snoc(s.subrange(1, s.len() as int), c);
        assert(sanitize(s.push(c)) =~= sanitize(s) + sanitize_char(c));
    }
}

fn sanitize_path(s: &str) -> (r: String)
    ensures
        r@ == sanitize(s@),
{
    let n = s.unicode_len();
    let mut out = String::new();
    let mut i: usize = 0;
    proof {
        assert(s@.subrange(0, 0) =~= Seq::<char>::empty());
    }
    while i < n
        invariant
            n == s@.len(),
            i <= n,
            out@ == sanitize(s@.subrange(0, i as int)),
        decreases n - i,
    {
        proof {
            assert(s@.subrange(0, i as int + 1) =~= s@.subrange(0, i as int).push(s@[i as int]));
            lemma_sanitize_snoc(s@.subrange(0, i as int), s@[i as int]);
        }
        let c = s.get_char(i);
        if c == '.' {
            out.append("_");
            proof {
                reveal_strlit("_");
                assert(out@ =~= sanitize(s@.subrange(0, i as int + 1)));
            }
        } else if c == '[' || c == ']' {
            proof {
                assert(out@ =~= sanitize(s@.subrange(0, i as int + 1)));
            }
        } else {
            let piece = s.substring_char(i, i + 1);
            out.append(piece);
            proof {
                assert(piece@ =~= seq![s@[i as int]]);
                assert(out@ =~= sanitize(s@.subrange(0, i as int + 1)));
            }
        }
        i = i + 1;
    }
    proof {
        assert(s@.subrange(0, n as int) =~= s@);
    }
    out
}

/// The identifier of JSON chunk `i` with the given path.
pub open spec fn json_chunk_id(i: nat, path: Seq<char>) -> Seq<char> {
    "json_chunk_"@ + dec_of(i) + "_"@ + sanitize(path)
}

/// JSON chunk identifiers are non-empty and pairwise distinct, whatever the
/// paths.
pub proof fn lemma_json_chunk_ids(i: nat, j: nat, p: Seq<char>, q: Seq<char>)
    requires
        i != j,
    ensures
        json_chunk_id(i, p).len() > 0,
        json_chunk_id(i, p) != json_chunk_id(j, q),
{
    lemma_dec_of_digits(i);
    lemma_dec_of_digits(j);
    reveal_strlit("_");
    assert("_"@ =~= seq!['_']);
    if json_chunk_id(i, p) == json_chunk_id(j, q) {
        assert(json_chunk_id(i, p) =~= "json_chunk_"@ + (dec_of(i) + seq!['_'] + sanitize(p)));
        assert(json_chunk_id(j, q) =~= "json_chunk_"@ + (dec_of(j) + seq!['_'] + sanitize(q)));
        lemma_cat_cancel(
            "json_chunk_"@,
            dec_of(i) + seq!['_'] + sanitize(p),
            dec_of(j) + seq!['_'] + sanitize(q),
        );
        assert(!is_digit('_'));
        lemma_dec_sep_injective(i, j, sanitize(p), sanitize(q), '_');
    }
}

/// The finished chunk built from walk chunk `i`: identifier from ordinal
/// and path, the walk's content, and the walk's metadata extended with the
/// ordinal and the source format.
pub open spec fn json_chunk_v(rc: RawChunkV, i: nat) -> ChunkV {
    ChunkV {
        id: json_chunk_id(i, rc.0),
        content: rc.1,
        metadata: rc.2 + seq![
            ("chunk_index"@, JsonV::Num(dec_of(i))),
            ("source"@, JsonV::Str("json"@)),
        ],
    }
}

/// All finished chunks of a document.
pub open spec fn json_chunks_of(v: JsonV) -> Seq<ChunkV> {
    Seq::new(json_raw_chunks(v).len(), |i: int| json_chunk_v(json_raw_chunks(v)[i], i as nat))
}

/// How many objects in the tree carry a `kind` entry.
pub open spec fn kind_nodes(v: JsonV) -> nat
    decreases v,
    via kind_nodes_decreases
{
    match v {
        JsonV::Obj(entries) => (if has_kind(entries) {
            1nat
        } else {
            0nat
        }) + kn_obj(entries),
        JsonV::Arr(items) => kn_arr(items),
        _ => 0,
    }
}

pub open spec fn kn_obj(entries: Seq<(Seq<char>, JsonV)>) -> nat
    decreases entries,
    via kn_obj_decreases
{
    if entries.len() == 0 {
        0
    } else {
        kind_nodes(entries[0].1) + kn_obj(entries.subrange(1, entries.len() as int))
    }
}

pub open spec fn kn_arr(items: Seq<JsonV>) -> nat
    decreases items,
    via kn_arr_decreases
{
    if items.len() == 0 {
        0
    } else {
        kind_nodes(items[0]) + kn_arr(items.subrange(1, items.len() as int))
    }
}

#[via_fn]
proof fn kind_nodes_decreases(v: JsonV) {
    match v {
        JsonV::Arr(items) => {
            assert(decreases_to!(v => items));
        },
        JsonV::Obj(entries) => {
            assert(decreases_to!(v => entries));
        },
        _ => {},
    }
}

#[via_fn]
proof fn kn_obj_decreases(entries: Seq<(Seq<char>, JsonV)>) {
    broadcast use vstd::seq::axiom_seq_index_decreases, vstd::seq::axiom_seq_subrange_decreases;

    if entries.len() > 0 {
        assert(decreases_to!(entries => entries[0]));
        assert(decreases_to!(entries[0] => entries[0].1));
        assert(decreases_to!(entries => entries.subrange(1, entries.len() as int)));
    }
}

#[via_fn]
proof fn kn_arr_decreases(items: Seq<JsonV>) {
    broadcast use vstd::seq::axiom_seq_index_decreases, vstd::seq::axiom_seq_subrange_decreases;

    if items.len() > 0 {
        assert(decreases_to!(items => items[0]));
        assert(decreases_to!(items => items.subrange(1, items.len() as int)));
    }
}

/// Whether a metadata record has an entry under `k`.
pub open spec fn meta_has_key(m: MetaMapV, k: Seq<char>) -> bool {
    exists|i: int| 0 <= i < m.len() && (#[trigger] m[i]).0 == k
}

/// How many chunks carry a `kind` tag in their metadata.
pub open spec fn count_kind_chunks(cs: Seq<RawChunkV>) -> nat
    decreases cs.len(),
{
    if cs.len() == 0 {
        0
    } else {
        (if meta_has_key(cs[0].2, "kind"@) {
            1nat
        } else {
            0nat
        }) + count_kind_chunks(cs.subrange(1, cs.len() as int))
    }
}

proof fn lemma_count_kind_cat(a: Seq<RawChunkV>, b: Seq<RawChunkV>)
    ensures
        count_kind_chunks(a + b) == count_kind_chunks(a) + count_kind_chunks(b),
    decreases a.len(),
{
    if a.len() == 0 {
        assert(a + b =~= b);
    } else {
        assert((a + b)[0] == a[0]);
        assert((a + b).subrange(1, (a + b).len() as int) =~= a.subrange(1, a.len() as int) + b);
        lemma_count_kind_cat(a.subrange(1, a.len() as int), b);
    }
}

proof fn lemma_leaf_no_kind(v: JsonV, path: Seq<char>)
    ensures
        !meta_has_key(leaf_chunk(v, path).2, "kind"@),
{
    reveal_strlit("path");
    reveal_strlit("kind");
    assert("path"@[0] == 'p');
    assert("kind"@[0] == 'k');
    let m = leaf_chunk(v, path).2;
    assert(m.len() == 1);
    assert(m[0].0 == "path"@);
    assert(m[0].0 != "kind"@);
}

proof fn lemma_kind_chunk_has_kind(entries: Seq<(Seq<char>, JsonV)>, path: Seq<char>)
    ensures
        meta_has_key(kind_chunk(entries, path).2, "kind"@),
{
    let m = kind_chunk(entries, path).2;
    assert(m[1].0 == "kind"@);
}

proof fn lemma_count_kind_single(c: RawChunkV)
    ensures
        count_kind_chunks(seq![c]) == if meta_has_key(c.2, "kind"@) {
            1nat
        } else {
            0nat
        },
{
    assert(seq![c][0] == c);
    assert(seq![c].len() == 1);
    assert(seq![c].subrange(1, 1) =~= Seq::<RawChunkV>::empty());
    assert(count_kind_chunks(seq![c].subrange(1, 1)) == count_kind_chunks(
        Seq::<RawChunkV>::empty(),
    ));
    assert(count_kind_chunks(Seq::<RawChunkV>::empty()) == 0);
}

proof fn lemma_jc_kind_count(v: JsonV, path: Seq<char>, covered: bool)
    ensures
        count_kind_chunks(jc(v, path, covered)) == kind_nodes(v),
    decreases v,
{
    broadcast use vstd::seq::axiom_seq_index_decreases, vstd::seq::axiom_seq_subrange_decreases;

    match v {
        JsonV::Obj(entries) => {
            assert(decreases_to!(v => entries));
            let own: Seq<RawChunkV> = if has_kind(entries) {
                seq![kind_chunk(entries, path)]
            } else {
                Seq::empty()
            };
            let c2 = covered || has_kind(entries);
            lemma_jc_obj_kind_count(entries, path, c2, v);
            lemma_count_kind_cat(own, jc_obj(entries, path, c2));
            if has_kind(entries) {
                lemma_kind_chunk_has_kind(entries, path);
                lemma_count_kind_single(kind_chunk(entries, path));
                assert(count_kind_chunks(own) == 1);
            } else {
                assert(count_kind_chunks(own) == 0);
            }
            let all = own + jc_obj(entries, path, c2);
            if all.len() == 0 && path.len() > 0 && !covered {
                lemma_leaf_no_kind(v, path);
                assert(jc(v, path, covered) =~= seq![leaf_chunk(v, path)]);
                lemma_count_kind_single(leaf_chunk(v, path));
                assert(count_kind_chunks(jc(v, path, covered)) == 0);
                assert(count_kind_chunks(all) == 0);
            }
        },
        JsonV::Arr(items) => {
            assert(decreases_to!(v => items));
            lemma_jc_arr_kind_count(items, path, covered, 0, v);
            let all = jc_arr(items, path, covered, 0);
            if all.len() == 0 && path.len() > 0 && !covered {
                lemma_leaf_no_kind(v, path);
                assert(jc(v, path, covered) =~= seq![leaf_chunk(v, path)]);
                lemma_count_kind_single(leaf_chunk(v, path));
                assert(count_kind_chunks(jc(v, path, covered)) == 0);
                assert(count_kind_chunks(all) == 0);
            }
        },
        _ => {
            if path.len() > 0 && !covered {
                lemma_leaf_no_kind(v, path);
                assert(jc(v, path, covered) =~= seq![leaf_chunk(v, path)]);
                lemma_count_kind_single(leaf_chunk(v, path));
                assert(count_kind_chunks(jc(v, path, covered)) == 0);
            }
        },
    }
}

proof fn lemma_jc_obj_kind_count(
    entries: Seq<(Seq<char>, JsonV)>,
    path: Seq<char>,
    covered: bool,
    ghost_parent: JsonV,
)
    requires
        decreases_to!(ghost_parent => entries),
    ensures
        count_kind_chunks(jc_obj(entries, path, covered)) == kn_obj(entries),
    decreases ghost_parent, entries.len(),
{
    broadcast use vstd::seq::axiom_seq_index_decreases, vstd::seq::axiom_seq_subrange_decreases;

    if entries.len() > 0 {
        let rest = entries.subrange(1, entries.len() as int);
        lemma_count_kind_cat(
            jc(entries[0].1, child_path(path, entries[0].0), covered),
            jc_obj(rest, path, covered),
        );
        assert(decreases_to!(entries => entries[0]));
        assert(decreases_to!(entries[0] => entries[0].1));
        lemma_jc_kind_count(entries[0].1, child_path(path, entries[0].0), covered);
        lemma_jc_obj_kind_count(rest, path, covered, ghost_parent);
    }
}

proof fn lemma_jc_arr_kind_count(
    items: Seq<JsonV>,
    path: Seq<char>,
    covered: bool,
    idx: nat,
    ghost_parent: JsonV,
)
    requires
        decreases_to!(ghost_parent => items),
    ensures
        count_kind_chunks(jc_arr(items, path, covered, idx)) == kn_arr(items),
    decreases ghost_parent, items.len(),
{
    broadcast use vstd::seq::axiom_seq_index_decreases, vstd::seq::axiom_seq_subrange_decreases;

    if items.len() > 0 {
        let rest = items.subrange(1, items.len() as int);
        lemma_count_kind_cat(
            jc(items[0], arr_path(path, idx), covered),
            jc_arr(rest, path, covered, idx + 1),
        );
        assert(decreases_to!(items => items[0]));
        lemma_jc_kind_count(items[0], arr_path(path, idx), covered);
        lemma_jc_arr_kind_count(rest, path, covered, idx + 1, ghost_parent);
    }
}

/// Every object bearing a `kind` entry produces exactly one chunk carrying
/// a `kind` tag in its metadata (with its path beside it), and no other
/// chunk carries that tag: over the whole document, the `kind`-tagged
/// chunks number exactly the `kind`-bearing objects.
pub proof fn lemma_kind_chunks_count(v: JsonV)
    ensures
        count_kind_chunks(json_raw_chunks(v)) == kind_nodes(v),
{
    lemma_jc_kind_count(v, Seq::empty(), false);
    let cs = jc(v, Seq::empty(), false);
    if cs.len() == 0 {
        lemma_leaf_no_kind(v, Seq::empty());
        assert(json_raw_chunks(v) =~= seq![leaf_chunk(v, Seq::empty())]);
        lemma_count_kind_single(leaf_chunk(v, Seq::empty()));
        assert(count_kind_chunks(json_raw_chunks(v)) == 0);
    }
}

/// A document that is a bare scalar (no `kind` anywhere, no nested
/// structure) becomes exactly one chunk, at the empty path.
pub proof fn lemma_scalar_doc(v: JsonV)
    requires
        !(v is Obj),
        !(v is Arr),
    ensures
        json_raw_chunks(v) == seq![leaf_chunk(v, Seq::empty())],
{
    assert(jc(v, Seq::empty(), false) == Seq::<RawChunkV>::empty());
}

} // verus!

verus! {

/// What the JSON parser makes of the given text: the document value, or
/// nothing when the text is not valid JSON. The outcome depends on the text
/// alone (object entries come in the parser's key order).
pub uninterp spec fn json_doc_of(s: Seq<char>) -> Option<JsonV>;

/// serde_json's value type, declared so that the conversion helper below
/// can take it; the verifier sees nothing inside a value of it.
#[verifier::external_type_specification]
#[verifier::external_body]
pub struct ExSerdeValue(serde_json::Value);

/// Relies on serde_json::from_str: parses a JSON document.
#[verifier::external_body]
fn parse_json(text: &str) -> (r: Result<JsonValue, String>)
    ensures
        r matches Ok(v) ==> json_doc_of(text@) == Some(v@),
        r is Err ==> json_doc_of(text@) is None,
{
    match serde_json::from_str::<serde_json::Value>(text) {
        Ok(v) => Ok(from_serde_value(&v)),
        Err(e) => Err(e.to_string()),
    }
}

/// Relies on serde_json::Value's shape: carries a parsed value over to the
/// library's own representation, variant for variant; numbers keep their
/// textual rendering.
#[verifier::external_body]
fn from_serde_value(v: &serde_json::Value) -> JsonValue {
    match v {
        serde_json::Value::Null => JsonValue::Null,
        serde_json::Value::Bool(b) => JsonValue::Bool(*b),
        serde_json::Value::Number(n) => JsonValue::Num(n.to_string()),
        serde_json::Value::String(s) => JsonValue::Str(s.clone()),
        serde_json::Value::Array(a) => JsonValue::Arr(a.iter().map(from_serde_value).collect()),
        serde_json::Value::Object(o) => JsonValue::Obj(
            o.iter().map(|(k, x)| (k.clone(), from_serde_value(x))).collect(),
        ),
    }
}

/// The metadata record of a structured-data file.
pub open spec fn json_metadata_v(file_name: Option<Seq<char>>, file_size: u64) -> MetadataV {
    MetadataV {
        content_type: ContentType::StructuredData,
        file_name: file_name,
        file_size: Some(file_size),
        created_at: None,
        modified_at: None,
        author: None,
        title: None,
        language: None,
        additional: Seq::empty(),
    }
}

impl JsonProvider {
    /// Parses the document and turns the tree walk's chunks into content
    /// chunks with deterministic identifiers.
    pub fn to_markdown_chunks(&self, text: &str) -> (r: Result<Vec<ContentChunk>, ProcessError>)
        ensures
            json_doc_of(text@) matches Some(v) ==> (r matches Ok(cs) && chunks_view(cs@)
                == json_chunks_of(v)),
            json_doc_of(text@) is None ==> (r matches Err(e) && e is DecodeError),
    {
        let value = match parse_json(text) {
            Ok(v) => v,
            Err(e) => {
                return Err(ProcessError::DecodeError(e));
            },
        };
        let mut raw = self.extract_chunks(&value, String::new());
        if raw.len() == 0 {
            let content = self.json_to_markdown(&value, 0);
            let mut meta: MetaMap = Vec::new();
            meta.push(("path".to_owned(), JsonValue::Str(String::new())));
            proof {
                lemma_jv_view_obj(meta@);
                assert(jv_view_obj(meta@) =~= seq![
                    ("path"@, JsonV::Str(Seq::<char>::empty())),
                ]);
            }
            raw.push((String::new(), content, meta));
            proof {
                assert(raw_view(raw@) =~= seq![leaf_chunk(value@, Seq::empty())]);
            }
        }
        proof {
            assert(raw_view(raw@) == json_raw_chunks(value@));
        }
        let ghost expected = json_chunks_of(value@);
        proof {
            assert(expected.len() == raw@.len());
        }
        let mut out: Vec<ContentChunk> = Vec::new();
        let mut i: usize = 0;
        while i < raw.len()
            invariant
                raw_view(raw@) == json_raw_chunks(value@),
                expected == json_chunks_of(value@),
                expected.len() == raw@.len(),
                i <= raw@.len(),
                out@.len() == i as int,
                forall|j: int| 0 <= j < i as int ==> #[trigger] out@[j]@ == expected[j],
            decreases raw@.len() - i,
        {
            let ghost rc = json_raw_chunks(value@)[i as int];
            proof {
                assert(raw_view(raw@)[i as int] == (
                    raw@[i as int].0@,
                    raw@[i as int].1@,
                    jv_view_obj(raw@[i as int].2@),
                ));
            }
            let entry = &raw[i];
            let mut id = "json_chunk_".to_owned();
            let num = usize_to_dec(i);
            id.append(num.as_str());
            id.append("_");
            let sp = sanitize_path(entry.0.as_str());
            id.append(sp.as_str());
            proof {
                reveal_strlit("_");
                assert(id@ =~= json_chunk_id(i as nat, rc.0));
            }
            let mut metadata = meta_dup(&entry.2);
            let ghost dv = metadata@;
            metadata.push(("chunk_index".to_owned(), JsonValue::Num(usize_to_dec(i))));
            metadata.push(("source".to_owned(), JsonValue::Str("json".to_owned())));
            proof {
                lemma_jv_view_obj(metadata@);
                lemma_jv_view_obj(dv);
                lemma_jv_view_obj(raw@[i as int].2@);
                assert(forall|j: int|
                    0 <= j < dv.len() ==> #[trigger] metadata@[j] == dv[j]);
                assert(jv_view_obj(metadata@) =~= rc.2 + seq![
                    ("chunk_index"@, JsonV::Num(dec_of(i as nat))),
                    ("source"@, JsonV::Str("json"@)),
                ]);
            }
            let chunk = ContentChunk { id, content: entry.1.clone(), metadata };
            proof {
                assert(chunk@ == expected[i as int]);
            }
            out.push(chunk);
            i = i + 1;
        }
        proof {
            crate::models::lemma_chunks_view(out@);
            assert(chunks_view(out@) =~= expected);
        }
        Ok(out)
    }

    /// The metadata record for a structured-data file; content decoding
    /// plays no part in it.
    pub fn to_metadata(&self, file_name: Option<String>, file_size: u64) -> (r: ContentMetadata)
        ensures
            r@ == json_metadata_v(opt_string_view(file_name), file_size),
    {
        let r = ContentMetadata {
            content_type: ContentType::StructuredData,
            file_name,
            file_size: Some(file_size),
            created_at: None,
            modified_at: None,
            author: None,
            title: None,
            language: None,
            additional: Vec::new(),
        };
        proof {
            assert(crate::models::meta_view(r.additional) =~= Seq::<(Seq<char>, JsonV)>::empty());
        }
        r
    }

    /// Processes one structured-data file: on valid JSON, a successful
    /// result with the tree walk's chunks and the file metadata; otherwise
    /// a failed result carrying the decode error, with no chunks.
    pub fn process_content(
        &self,
        text: &str,
        file_name: Option<String>,
        file_size: u64,
    ) -> (r: ContentProcessingResult)
        ensures
            result_wf(r@),
            r@.metadata == json_metadata_v(opt_string_view(file_name), file_size),
            json_doc_of(text@) matches Some(v) ==> r@.success && r@.chunks == json_chunks_of(v)
                && r@.error is None,
            json_doc_of(text@) is None ==> !r@.success && r@.error is Some && r@.chunks == Seq::<
                ChunkV,
            >::empty(),
    {
        let chunks_res = self.to_markdown_chunks(text);
        let metadata = self.to_metadata(file_name, file_size);
        match chunks_res {
            Ok(chunks) => {
                let r = ContentProcessingResult { success: true, chunks, metadata, error: None };
                proof {
                    let v = json_doc_of(text@)->Some_0;
                    let cs = r@.chunks;
                    assert forall|i: int, j: int| 0 <= i < j < cs.len() implies cs[i].id
                        != cs[j].id by {
                        lemma_json_chunk_ids(
                            i as nat,
                            j as nat,
                            json_raw_chunks(v)[i].0,
                            json_raw_chunks(v)[j].0,
                        );
                    }
                    assert forall|i: int| 0 <= i < cs.len() implies #[trigger] cs[i].id.len()
                        > 0 by {
                        lemma_json_chunk_ids(
                            i as nat,
                            (i + 1) as nat,
                            json_raw_chunks(v)[i].0,
                            json_raw_chunks(v)[i].0,
                        );
                    }
                }
                r
            },
            Err(e) => {
                let msg = e.message();
                let r = ContentProcessingResult {
                    success: false,
                    chunks: Vec::new(),
                    metadata,
                    error: Some(msg),
                };
                proof {
                    assert(chunks_view(r.chunks@) =~= Seq::<ChunkV>::empty());
                }
                r
            },
        }
    }
}

} // verus!
