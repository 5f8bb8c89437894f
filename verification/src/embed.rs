//! Token-count accounting for embedding calls: a whitespace-split word
//! count over the input texts — an approximation for usage reporting, not
//! tokenizer output — and the chunk-text collection handed to the embedding
//! capability.
use crate::models::{ContentChunk, Usage};
use crate::strutil::{is_ws, is_ws_char};
use vstd::prelude::*;
use vstd::string::*;

verus! {

/// Words seen from here on, given whether a word was already running.
pub open spec fn wc_fold(s: Seq<char>, in_word: bool) -> nat
    decreases s.len(),
{
    if s.len() == 0 {
        0
    } else {
        (if !is_ws(s[0]) && !in_word {
            1nat
        } else {
            0nat
        }) + wc_fold(s.subrange(1, s.len() as int), !is_ws(s[0]))
    }
}

/// The whitespace-split word count of a text.
pub open spec fn word_count(s: Seq<char>) -> nat {
    wc_fold(s, false)
}

/// Counts the whitespace-split words of a text.
pub fn count_words(s: &str) -> (r: usize)
    ensures
        r as nat == word_count(s@),
{
    let n = s.unicode_len();
    let mut count: usize = 0;
    let mut in_word = false;
    let mut i: usize = 0;
    proof {
        assert(s@.subrange(0, n as int) =~= s@);
    }
    while i < n
        invariant
            n == s@.len(),
            i <= n,
            count <= i,
            word_count(s@) == count as nat + wc_fold(s@.subrange(i as int, n as int), in_word),
        decreases n - i,
    {
        let ghost suf = s@.subrange(i as int, n as int);
        proof {
            assert(suf[0] == s@[i as int]);
            assert(suf.subrange(1, suf.len() as int) =~= s@.subrange(i as int + 1, n as int));
        }
        let c = s.get_char(i);
        let ws = is_ws_char(c);
        if !ws && !in_word {
            count = count + 1;
        }
        in_word = !ws;
        i = i + 1;
    }
    count
}

/// The total word count of a sequence of texts.
pub open spec fn total_words(ts: Seq<Seq<char>>) -> nat
    decreases ts.len(),
{
    if ts.len() == 0 {
        0
    } else {
        word_count(ts[0]) + total_words(ts.subrange(1, ts.len() as int))
    }
}

proof fn lemma_total_words_snoc(ts: Seq<Seq<char>>, t: Seq<char>)
    ensures
        total_words(ts.push(t)) == total_words(ts) + word_count(t),
    decreases ts.len(),
{
    if ts.len() == 0 {
        assert(ts.push(t)[0] == t);
        assert(ts.push(t).len() == 1);
        assert(ts.push(t).subrange(1, 1) =~= Seq::<Seq<char>>::empty());
        assert(total_words(ts.push(t).subrange(1, 1)) == total_words(Seq::<Seq<char>>::empty()));
        assert(total_words(Seq::<Seq<char>>::empty()) == 0);
        assert(total_words(ts) == 0);
    } else {
        assert(ts.push(t)[0] == ts[0]);
        assert(ts.push(t).subrange(1, ts.len() as int + 1) =~= ts.subrange(
            1,
            ts.len() as int,
        ).push(t));
        lemma_total_words_snoc(ts.subrange(1, ts.len() as int), t);
    }
}

/// Counts the words of all texts together, clamped at the machine's
/// integer limit.
pub fn count_prompt_tokens(texts: &Vec<String>) -> (r: usize)
    ensures
        r as nat == if total_words(texts.deep_view()) <= usize::MAX as nat {
            total_words(texts.deep_view())
        } else {
            usize::MAX as nat
        },
{
    let ghost tv = texts.deep_view();
    let mut sum: u128 = 0;
    let mut i: usize = 0;
    proof {
        assert(tv.subrange(0, 0) =~= Seq::<Seq<char>>::empty());
    }
    while i < texts.len()
        invariant
            tv == texts.deep_view(),
            tv.len() == texts@.len(),
            i <= texts@.len(),
            sum as nat == total_words(tv.subrange(0, i as int)),
            sum <= i as u128 * (usize::MAX as u128),
        decreases texts@.len() - i,
    {
        proof {
            assert(tv.subrange(0, i as int + 1) =~= tv.subrange(0, i as int).push(tv[i as int]));
            lemma_total_words_snoc(tv.subrange(0, i as int), tv[i as int]);
            assert(tv[i as int] == texts@[i as int]@);
            assert((i + 1) as u128 * (usize::MAX as u128) == i as u128 * (usize::MAX as u128)
                + usize::MAX as u128) by (nonlinear_arith);
        }
        let w = count_words(texts[i].as_str());
        sum = sum + (w as u128);
        i = i + 1;
    }
    proof {
        assert(tv.subrange(0, tv.len() as int) =~= tv);
    }
    if sum > (usize::MAX as u128) {
        usize::MAX
    } else {
        sum as usize
    }
}

/// The usage record of one embedding call over the given texts: the prompt
/// token count is the whitespace-split word count of the inputs, and no
/// further tokens are counted.
pub fn usage_for(texts: &Vec<String>) -> (r: Usage)
    ensures
        r.prompt_tokens as nat == if total_words(texts.deep_view()) <= usize::MAX as nat {
            total_words(texts.deep_view())
        } else {
            usize::MAX as nat
        },
        r.total_tokens == r.prompt_tokens,
{
    let n = count_prompt_tokens(texts);
    Usage { prompt_tokens: n, total_tokens: n }
}

/// The texts handed to the embedding capability: each chunk's content, in
/// chunk order.
pub fn chunk_texts(chunks: &Vec<ContentChunk>) -> (r: Vec<String>)
    ensures
        r@.len() == chunks@.len(),
        forall|i: int| 0 <= i < chunks@.len() ==> #[trigger] r@[i]@ == chunks@[i]@.content,
{
    let mut out: Vec<String> = Vec::new();
    let mut i: usize = 0;
    while i < chunks.len()
        invariant
            i <= chunks@.len(),
            out@.len() == i as int,
            forall|j: int| 0 <= j < i as int ==> #[trigger] out@[j]@ == chunks@[j]@.content,
        decreases chunks@.len() - i,
    {
        out.push(chunks[i].content.clone());
        i = i + 1;
    }
    out
}

} // verus!
