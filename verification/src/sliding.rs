//! Sliding-window text chunking: consecutive character windows of a fixed
//! size, each overlapping the previous one by a fixed amount.
use vstd::prelude::*;
use vstd::string::*;

verus! {

/// The windows produced from position `start` on: one window of up to `c`
/// characters, then, if the text was not exhausted, the windows from
/// `start + c - o` on.
pub open spec fn win_from(s: Seq<char>, start: int, c: int, o: int) -> Seq<Seq<char>>
    recommends
        0 <= start <= s.len(),
        0 <= o < c,
    decreases s.len() - start when 0 <= start <= s.len() && 0 <= o < c
{
    if start + c >= s.len() {
        seq![s.subrange(start, s.len() as int)]
    } else {
        seq![s.subrange(start, start + c)] + win_from(s, start + c - o, c, o)
    }
}

/// All windows of the text: window `i` covers `[i*(c-o), i*(c-o)+c)`,
/// clipped to the text length for the final window.
pub open spec fn windows(s: Seq<char>, c: int, o: int) -> Seq<Seq<char>> {
    win_from(s, 0, c, o)
}

/// Splits `text` into consecutive windows of `chunk_size` characters, each
/// sharing its last `overlap` characters with the start of the next; the
/// final window is clipped to the text length. A text of at most
/// `chunk_size` characters yields exactly one chunk equal to the text.
pub fn chunk_text(text: &str, chunk_size: usize, overlap: usize) -> (r: Vec<String>)
    requires
        overlap < chunk_size,
    ensures
        r.deep_view() == windows(text@, chunk_size as int, overlap as int),
{
    let ghost c = chunk_size as int;
    let ghost o = overlap as int;
    let n = text.unicode_len();
    let mut chunks: Vec<String> = Vec::new();
    let mut start: usize = 0;
    loop
        invariant_except_break
            windows(text@, c, o) =~= chunks.deep_view() + win_from(text@, start as int, c, o),
        invariant
            n == text@.len(),
            start <= n,
            overlap < chunk_size,
            c == chunk_size as int,
            o == overlap as int,
        ensures
            chunks.deep_view() == windows(text@, c, o),
        decreases n - start,
    {
        let end = if n - start <= chunk_size {
            n
        } else {
            start + chunk_size
        };
        let piece = text.substring_char(start, end).to_owned();
        chunks.push(piece);
        proof {
            assert(chunks.deep_view() =~= chunks.deep_view().subrange(
                0,
                chunks.deep_view().len() - 1,
            ) + seq![text@.subrange(start as int, end as int)]);
        }
        if end == n {
            proof {
                assert(win_from(text@, start as int, c, o) =~= seq![
                    text@.subrange(start as int, n as int),
                ]);
            }
            break;
        }
        start = end - overlap;
    }
    chunks
}

/// The concatenation of every window's non-overlapping prefix (the whole
/// final window).
pub open spec fn prefixes_cat(w: Seq<Seq<char>>, step: int) -> Seq<char>
    decreases w.len(),
{
    if w.len() == 0 {
        Seq::empty()
    } else if w.len() == 1 {
        w[0]
    } else {
        w[0].subrange(0, step) + prefixes_cat(w.subrange(1, w.len() as int), step)
    }
}

proof fn lemma_win_from_facts(s: Seq<char>, start: int, c: int, o: int)
    requires
        0 <= start <= s.len(),
        0 <= o < c,
    ensures
        win_from(s, start, c, o).len() >= 1,
        prefixes_cat(win_from(s, start, c, o), c - o) =~= s.subrange(start, s.len() as int),
        forall|i: int|
            0 <= i < win_from(s, start, c, o).len() - 1 ==> #[trigger] win_from(
                s,
                start,
                c,
                o,
            )[i].len() == c,
        win_from(s, start, c, o).last().len() <= c,
    decreases s.len() - start,
{
    let w = win_from(s, start, c, o);
    if start + c >= s.len() {
        assert(w =~= seq![s.subrange(start, s.len() as int)]);
    } else {
        let rest = win_from(s, start + c - o, c, o);
        lemma_win_from_facts(s, start + c - o, c, o);
        assert(w =~= seq![s.subrange(start, start + c)] + rest);
        assert(w.subrange(1, w.len() as int) =~= rest);
        assert(w.len() >= 2);
        assert(prefixes_cat(w, c - o) =~= w[0].subrange(0, c - o) + prefixes_cat(rest, c - o));
        assert(w[0].subrange(0, c - o) =~= s.subrange(start, start + c - o));
        assert(prefixes_cat(rest, c - o) =~= s.subrange(start + c - o, s.len() as int));
        assert(s.subrange(start, start + c - o) + s.subrange(start + c - o, s.len() as int)
            =~= s.subrange(start, s.len() as int));
        assert(w.last() == rest.last());
        assert forall|i: int| 0 <= i < w.len() - 1 implies #[trigger] w[i].len() == c by {
            if i > 0 {
                assert(w[i] == rest[i - 1]);
            }
        }
    }
}

/// Reconstruction: concatenating each window's non-overlapping prefix (and
/// the final window whole) yields the text back exactly; every window but
/// the last has length exactly `c`; the final window has at most `c`
/// characters; a text of at most `c` characters yields exactly one window,
/// the text itself.
pub proof fn lemma_sliding_window(s: Seq<char>, c: int, o: int)
    requires
        0 <= o < c,
    ensures
        windows(s, c, o).len() >= 1,
        prefixes_cat(windows(s, c, o), c - o) == s,
        forall|i: int|
            0 <= i < windows(s, c, o).len() - 1 ==> #[trigger] windows(s, c, o)[i].len() == c,
        windows(s, c, o).last().len() <= c,
        s.len() <= c ==> windows(s, c, o) == seq![s],
{
    lemma_win_from_facts(s, 0, c, o);
    assert(s.subrange(0, s.len() as int) =~= s);
    assert(prefixes_cat(windows(s, c, o), c - o) =~= s.subrange(0, s.len() as int));
    if s.len() <= c {
        assert(windows(s, c, o) =~= seq![s]);
    }
}

/// Overlap: every window but the last shares its final `o` characters with
/// the first `o` characters of the next window.
pub proof fn lemma_sliding_window_overlap(s: Seq<char>, c: int, o: int, start: int, i: int)
    requires
        0 <= o < c,
        0 <= start <= s.len(),
        0 <= i < win_from(s, start, c, o).len() - 1,
    ensures
        win_from(s, start, c, o)[i + 1].len() >= o,
        win_from(s, start, c, o)[i].subrange(c - o, c) == win_from(s, start, c, o)[i
            + 1].subrange(0, o),
    decreases i,
{
    let w = win_from(s, start, c, o);
    lemma_win_from_facts(s, start, c, o);
    if start + c >= s.len() {
        // only one window, so no i exists; nothing to show
        assert(w.len() == 1);
    } else {
        let rest = win_from(s, start + c - o, c, o);
        lemma_win_from_facts(s, start + c - o, c, o);
        if i == 0 {
            assert(w[0] == s.subrange(start, start + c));
            assert(w[1] == rest[0]);
            if start + c - o + c >= s.len() {
                assert(rest[0] == s.subrange(start + c - o, s.len() as int));
            } else {
                assert(rest[0] == s.subrange(start + c - o, start + c - o + c));
            }
            assert(w[0].subrange(c - o, c) =~= s.subrange(start + c - o, start + c));
            assert(w[1].subrange(0, o) =~= s.subrange(start + c - o, start + c));
        } else {
            lemma_sliding_window_overlap(s, c, o, start + c - o, i - 1);
            assert(w[i] == rest[i - 1]);
            assert(w[i + 1] == rest[i]);
        }
    }
}

} // verus!
