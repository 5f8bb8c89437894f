//! Small verified string utilities: decimal rendering of integers, trimming,
//! repetition, and ASCII case folding.
use vstd::prelude::*;
use vstd::string::*;

verus! {

/// The character for one decimal digit.
pub open spec fn digit_char(d: nat) -> char {
    if d == 0 {
        '0'
    } else if d == 1 {
        '1'
    } else if d == 2 {
        '2'
    } else if d == 3 {
        '3'
    } else if d == 4 {
        '4'
    } else if d == 5 {
        '5'
    } else if d == 6 {
        '6'
    } else if d == 7 {
        '7'
    } else if d == 8 {
        '8'
    } else {
        '9'
    }
}

/// The decimal rendering of `n`, most significant digit first, no leading
/// zeros (except for `n == 0` itself).
pub open spec fn dec_of(n: nat) -> Seq<char>
    decreases n,
{
    if n < 10 {
        seq![digit_char(n)]
    } else {
        dec_of(n / 10) + seq![digit_char(n % 10)]
    }
}

pub open spec fn is_digit(c: char) -> bool {
    '0' <= c && c <= '9'
}

pub proof fn lemma_dec_of_digits(n: nat)
    ensures
        dec_of(n).len() >= 1,
        forall|i: int| 0 <= i < dec_of(n).len() ==> is_digit(#[trigger] dec_of(n)[i]),
    decreases n,
{
    if n >= 10 {
        lemma_dec_of_digits(n / 10);
    }
}

proof fn lemma_dec_of_last(n: nat)
    requires
        n >= 10,
    ensures
        dec_of(n).len() == dec_of(n / 10).len() + 1,
        dec_of(n).last() == digit_char(n % 10),
        dec_of(n).subrange(0, dec_of(n).len() - 1) =~= dec_of(n / 10),
{
}

/// Distinct numbers have distinct decimal renderings.
pub proof fn lemma_dec_of_injective(a: nat, b: nat)
    requires
        dec_of(a) == dec_of(b),
    ensures
        a == b,
    decreases a,
{
    if a < 10 && b < 10 {
        assert(seq![digit_char(a)][0] == digit_char(a));
        assert(seq![digit_char(b)][0] == digit_char(b));
        assert(digit_char(a) == digit_char(b));
    } else if a < 10 {
        assert(dec_of(a).len() == 1);
        lemma_dec_of_digits(b / 10);
        assert(dec_of(b).len() >= 2) by {
            lemma_dec_of_last(b);
        }
    } else if b < 10 {
        assert(dec_of(b).len() == 1);
        lemma_dec_of_digits(a / 10);
        assert(dec_of(a).len() >= 2) by {
            lemma_dec_of_last(a);
        }
    } else {
        lemma_dec_of_last(a);
        lemma_dec_of_last(b);
        assert(dec_of(a).last() == dec_of(b).last());
        assert(digit_char(a % 10) == digit_char(b % 10));
        assert(a % 10 == b % 10);
        assert(dec_of(a / 10) == dec_of(b / 10));
        lemma_dec_of_injective(a / 10, b / 10);
        assert(a == 10 * (a / 10) + a % 10);
        assert(b == 10 * (b / 10) + b % 10);
    }
}

/// Decimal renderings followed by a non-digit separator are prefix-free:
/// equal combined strings force equal numbers and equal tails.
pub proof fn lemma_dec_sep_injective(a: nat, b: nat, s: Seq<char>, t: Seq<char>, sep: char)
    requires
        !is_digit(sep),
        dec_of(a) + seq![sep] + s == dec_of(b) + seq![sep] + t,
    ensures
        a == b,
        s == t,
{
    lemma_dec_of_digits(a);
    lemma_dec_of_digits(b);
    let la = dec_of(a).len() as int;
    let lb = dec_of(b).len() as int;
    let whole = dec_of(a) + seq![sep] + s;
    assert(whole.len() == la + 1 + s.len());
    assert((dec_of(b) + seq![sep] + t).len() == lb + 1 + t.len());
    if la < lb {
        assert(whole[la] == sep);
        assert((dec_of(b) + seq![sep] + t)[la] == dec_of(b)[la]);
        assert(is_digit(dec_of(b)[la]));
    } else if lb < la {
        assert(whole[lb] == (dec_of(b) + seq![sep] + t)[lb]);
        assert((dec_of(b) + seq![sep] + t)[lb] == sep);
        assert(whole[lb] == dec_of(a)[lb]);
        assert(is_digit(dec_of(a)[lb]));
    } else {
        assert(dec_of(a) =~= dec_of(b)) by {
            assert(forall|i: int| 0 <= i < la ==> whole[i] == dec_of(a)[i]);
            assert(forall|i: int|
                0 <= i < la ==> (dec_of(b) + seq![sep] + t)[i] == dec_of(b)[i]);
        }
        lemma_dec_of_injective(a, b);
        assert(s =~= t) by {
            assert(forall|i: int| 0 <= i < s.len() ==> whole[la + 1 + i] == s[i]);
            assert(s.len() == t.len());
            assert(forall|i: int|
                0 <= i < t.len() ==> (dec_of(b) + seq![sep] + t)[lb + 1 + i] == t[i]);
        }
    }
}

fn digit_str(d: u64) -> (r: &'static str)
    requires
        d < 10,
    ensures
        r@ == seq![digit_char(d as nat)],
{
    proof {
        reveal_strlit("0");
        reveal_strlit("1");
        reveal_strlit("2");
        reveal_strlit("3");
        reveal_strlit("4");
        reveal_strlit("5");
        reveal_strlit("6");
        reveal_strlit("7");
        reveal_strlit("8");
        reveal_strlit("9");
    }
    match d {
        0 => "0",
        1 => "1",
        2 => "2",
        3 => "3",
        4 => "4",
        5 => "5",
        6 => "6",
        7 => "7",
        8 => "8",
        _ => "9",
    }
}

/// Renders `n` in decimal.
pub fn u128_to_dec(n: u128) -> (r: String)
    ensures
        r@ == dec_of(n as nat),
    decreases n,
{
    if n < 10 {
        digit_str(n as u64).to_owned()
    } else {
        let q = u128_to_dec(n / 10);
        q.concat(digit_str((n % 10) as u64))
    }
}

/// Renders `n` in decimal.
pub fn u64_to_dec(n: u64) -> (r: String)
    ensures
        r@ == dec_of(n as nat),
{
    u128_to_dec(n as u128)
}

/// Renders `n` in decimal.
pub fn usize_to_dec(n: usize) -> (r: String)
    ensures
        r@ == dec_of(n as nat),
{
    u64_to_dec(n as u64)
}

/// A number of tenths rendered with one decimal place, as `12.3`.
pub open spec fn tenths_of(t: nat) -> Seq<char> {
    dec_of(t / 10) + seq!['.'] + seq![digit_char(t % 10)]
}

/// Renders a number of tenths with one decimal place.
pub fn render_tenths(t: u128) -> (r: String)
    ensures
        r@ == tenths_of(t as nat),
{
    let whole = u128_to_dec(t / 10);
    let frac = digit_str((t % 10) as u64);
    let mut out = whole;
    out.append(".");
    out.append(frac);
    proof {
        reveal_strlit(".");
        assert(out@ =~= tenths_of(t as nat));
    }
    out
}

/// A number of thousandths rendered with three decimal places, as `12.345`.
pub open spec fn thousandths_of(t: nat) -> Seq<char> {
    dec_of(t / 1000) + seq!['.'] + seq![
        digit_char((t / 100) % 10),
        digit_char((t / 10) % 10),
        digit_char(t % 10),
    ]
}

/// Renders a number of thousandths with three decimal places.
pub fn render_thousandths(t: u128) -> (r: String)
    ensures
        r@ == thousandths_of(t as nat),
{
    let whole = u128_to_dec(t / 1000);
    let mut out = whole;
    out.append(".");
    out.append(digit_str(((t / 100) % 10) as u64));
    out.append(digit_str(((t / 10) % 10) as u64));
    out.append(digit_str((t % 10) as u64));
    proof {
        reveal_strlit(".");
        assert(out@ =~= thousandths_of(t as nat));
    }
    out
}

/// Equal sequences stay equal when a common prefix is removed.
pub proof fn lemma_cat_cancel(p: Seq<char>, x: Seq<char>, y: Seq<char>)
    requires
        p + x == p + y,
    ensures
        x == y,
{
    assert((p + x).len() == p.len() + x.len());
    assert((p + y).len() == p.len() + y.len());
    assert(x =~= y) by {
        assert(forall|i: int| 0 <= i < x.len() ==> x[i] == (p + x)[p.len() + i]);
        assert(forall|i: int| 0 <= i < y.len() ==> y[i] == (p + y)[p.len() + i]);
    }
}

/// Unicode whitespace, as `str::trim` understands it.
pub open spec fn is_ws(c: char) -> bool {
    let u = c as u32;
    (9 <= u && u <= 13) || u == 32 || u == 0x85 || u == 0xA0 || u == 0x1680 || (0x2000 <= u
        && u <= 0x200A) || u == 0x2028 || u == 0x2029 || u == 0x202F || u == 0x205F || u == 0x3000
}

/// Executable test for Unicode whitespace.
pub fn is_ws_char(c: char) -> (r: bool)
    ensures
        r == is_ws(c),
{
    let u = c as u32;
    (9 <= u && u <= 13) || u == 32 || u == 0x85 || u == 0xA0 || u == 0x1680 || (0x2000 <= u
        && u <= 0x200A) || u == 0x2028 || u == 0x2029 || u == 0x202F || u == 0x205F || u == 0x3000
}

pub open spec fn trim_front(s: Seq<char>) -> Seq<char>
    decreases s.len(),
{
    if s.len() == 0 {
        s
    } else if is_ws(s[0]) {
        trim_front(s.subrange(1, s.len() as int))
    } else {
        s
    }
}

pub open spec fn trim_back(s: Seq<char>) -> Seq<char>
    decreases s.len(),
{
    if s.len() == 0 {
        s
    } else if is_ws(s.last()) {
        trim_back(s.subrange(0, s.len() - 1))
    } else {
        s
    }
}

/// What `str::trim` returns: the input without leading and trailing
/// whitespace.
pub open spec fn trim_spec(s: Seq<char>) -> Seq<char> {
    trim_back(trim_front(s))
}

proof fn lemma_trim_front_range(s: Seq<char>, lo: int)
    requires
        0 <= lo <= s.len(),
        forall|i: int| 0 <= i < lo ==> is_ws(s[i]),
        lo == s.len() || !is_ws(s[lo]),
    ensures
        trim_front(s) =~= s.subrange(lo, s.len() as int),
    decreases lo,
{
    if lo > 0 {
        let s1 = s.subrange(1, s.len() as int);
        lemma_trim_front_range(s1, lo - 1);
        assert(s1.subrange(lo - 1, s1.len() as int) =~= s.subrange(lo, s.len() as int));
    } else {
        if s.len() > 0 {
            assert(!is_ws(s[0]));
        }
    }
}

proof fn lemma_trim_back_range(s: Seq<char>, hi: int)
    requires
        0 <= hi <= s.len(),
        forall|i: int| hi <= i < s.len() ==> is_ws(s[i]),
        hi == 0 || !is_ws(s[hi - 1]),
    ensures
        trim_back(s) =~= s.subrange(0, hi),
    decreases s.len() - hi,
{
    if hi < s.len() {
        let s1 = s.subrange(0, s.len() - 1);
        lemma_trim_back_range(s1, hi);
        assert(s1.subrange(0, hi) =~= s.subrange(0, hi));
    } else {
        if s.len() > 0 {
            assert(!is_ws(s.last()));
        }
    }
}

/// What `str::trim` does, verified against `trim_spec`.
pub fn trim_str(s: &str) -> (r: String)
    ensures
        r@ == trim_spec(s@),
{
    let n = s.unicode_len();
    let mut lo: usize = 0;
    while lo < n && is_ws_char(s.get_char(lo))
        invariant
            n == s@.len(),
            lo <= n,
            forall|i: int| 0 <= i < lo ==> is_ws(s@[i]),
        decreases n - lo,
    {
        lo = lo + 1;
    }
    let mut hi: usize = n;
    while hi > lo && is_ws_char(s.get_char(hi - 1))
        invariant
            n == s@.len(),
            lo <= hi <= n,
            forall|i: int| 0 <= i < lo ==> is_ws(s@[i]),
            lo == n || !is_ws(s@[lo as int]),
            forall|i: int| hi <= i < n ==> is_ws(s@[i]),
        decreases hi,
    {
        hi = hi - 1;
    }
    let out = s.substring_char(lo, hi).to_owned();
    proof {
        let sv = s@;
        if lo == n {
            lemma_trim_front_range(sv, lo as int);
            assert(trim_front(sv).len() == 0);
            assert(out@ =~= trim_spec(sv));
        } else {
            lemma_trim_front_range(sv, lo as int);
            let f = sv.subrange(lo as int, n as int);
            if hi == lo {
                // every character from lo on is whitespace would contradict
                // !is_ws(sv[lo]); here hi > lo is forced unless the loop
                // stopped at lo because sv[lo] itself ends the range
                assert(!is_ws(sv[lo as int]));
                assert(is_ws(f[0]) == is_ws(sv[lo as int]));
                lemma_trim_back_range(f, 0);
                assert(out@ =~= trim_spec(sv));
            } else {
                assert(hi > lo);
                assert(!is_ws(sv[hi - 1]));
                assert(forall|i: int|
                    hi - lo <= i < f.len() ==> is_ws(#[trigger] f[i]) == is_ws(
                        sv[lo + i],
                    ));
                lemma_trim_back_range(f, hi - lo);
                assert(f.subrange(0, hi - lo) =~= sv.subrange(lo as int, hi as int));
                assert(out@ =~= trim_spec(sv));
            }
        }
    }
    out
}

/// `s` repeated `n` times.
pub open spec fn repeat_seq(s: Seq<char>, n: nat) -> Seq<char>
    decreases n,
{
    if n == 0 {
        Seq::empty()
    } else {
        s + repeat_seq(s, (n - 1) as nat)
    }
}

pub proof fn lemma_repeat_snoc(s: Seq<char>, n: nat)
    ensures
        repeat_seq(s, n + 1) =~= repeat_seq(s, n) + s,
    decreases n,
{
    if n > 0 {
        lemma_repeat_snoc(s, (n - 1) as nat);
    }
}

/// What `str::repeat` does: the string repeated `n` times.
pub fn repeat_str(s: &str, n: usize) -> (r: String)
    ensures
        r@ == repeat_seq(s@, n as nat),
{
    let mut out = String::new();
    let mut i: usize = 0;
    while i < n
        invariant
            i <= n,
            out@ == repeat_seq(s@, i as nat),
        decreases n - i,
    {
        out.append(s);
        proof {
            lemma_repeat_snoc(s@, i as nat);
        }
        i = i + 1;
    }
    out
}

/// Character-for-character string equality.
pub fn str_eq(a: &str, b: &str) -> (r: bool)
    ensures
        r == (a@ == b@),
{
    let x = a.to_owned();
    let y = b.to_owned();
    x == y
}

/// ASCII lower-casing of one character.
pub open spec fn lower_char(c: char) -> char {
    if 'A' <= c && c <= 'Z' {
        (((c as u8) + 32) as char)
    } else {
        c
    }
}

/// ASCII lower-casing of a character sequence.
pub open spec fn lower_seq(s: Seq<char>) -> Seq<char> {
    s.map_values(|c: char| lower_char(c))
}

fn lower_char_exec(c: char) -> (r: char)
    ensures
        r == lower_char(c),
{
    if 'A' <= c && c <= 'Z' {
        ((c as u8) + 32) as char
    } else {
        c
    }
}

/// Whether `a`, lower-cased ASCII-wise, equals `b` (so `b` is expected in
/// lower case already).
pub fn eq_lower(a: &str, b: &str) -> (r: bool)
    ensures
        r == (lower_seq(a@) == b@),
{
    let na = a.unicode_len();
    let nb = b.unicode_len();
    if na != nb {
        proof {
            assert(lower_seq(a@).len() == a@.len());
        }
        return false;
    }
    let mut i: usize = 0;
    while i < na
        invariant
            na == a@.len(),
            nb == b@.len(),
            na == nb,
            i <= na,
            forall|j: int| 0 <= j < i ==> lower_char(a@[j]) == b@[j],
        decreases na - i,
    {
        let ca = lower_char_exec(a.get_char(i));
        let cb = b.get_char(i);
        if ca != cb {
            proof {
                assert(lower_seq(a@)[i as int] == lower_char(a@[i as int]));
            }
            return false;
        }
        i = i + 1;
    }
    proof {
        assert(lower_seq(a@) =~= b@);
    }
    true
}

} // verus!
