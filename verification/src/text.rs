//! Character-level text helpers shared by the tokenizers and the renderers:
//! whitespace splitting, decimal rendering, padding and repetition, all over
//! `Seq<char>` models.
use vstd::prelude::*;

verus! {

broadcast use vstd::string::group_string_axioms;

/// Unicode `White_Space`, the set that `char::is_whitespace` tests.
pub open spec fn is_ws(c: char) -> bool {
    let u = c as u32;
    ||| 0x09 <= u <= 0x0D
    ||| u == 0x20
    ||| u == 0x85
    ||| u == 0xA0
    ||| u == 0x1680
    ||| 0x2000 <= u <= 0x200A
    ||| u == 0x2028
    ||| u == 0x2029
    ||| u == 0x202F
    ||| u == 0x205F
    ||| u == 0x3000
}

/// Whether `c` is Unicode whitespace.
pub fn is_whitespace(c: char) -> (r: bool)
    ensures
        r == is_ws(c),
{
    let u = c as u32;
    (0x09 <= u && u <= 0x0D) || u == 0x20 || u == 0x85 || u == 0xA0 || u == 0x1680 || (0x2000
        <= u && u <= 0x200A) || u == 0x2028 || u == 0x2029 || u == 0x202F || u == 0x205F || u
        == 0x3000
}

/// The state of a left-to-right whitespace split after reading `s`:
/// the words completed so far and the word being read.
pub open spec fn split_state(s: Seq<char>) -> (Seq<Seq<char>>, Seq<char>)
    decreases s.len(),
{
    if s.len() == 0 {
        (seq![], seq![])
    } else {
        let (ws, cur) = split_state(s.drop_last());
        let c = s.last();
        if is_ws(c) {
            if cur.len() > 0 {
                (ws.push(cur), seq![])
            } else {
                (ws, cur)
            }
        } else {
            (ws, cur.push(c))
        }
    }
}

/// The maximal runs of non-whitespace characters of `s`, in order
/// (what `str::split_whitespace` yields).
pub open spec fn words_of(s: Seq<char>) -> Seq<Seq<char>> {
    let (ws, cur) = split_state(s);
    if cur.len() > 0 {
        ws.push(cur)
    } else {
        ws
    }
}

/// A text without whitespace is read as one word in progress.
pub proof fn lemma_split_state_no_ws(w: Seq<char>)
    requires
        forall|j: int| 0 <= j < w.len() ==> !is_ws(#[trigger] w[j]),
    ensures
        split_state(w) == (Seq::<Seq<char>>::empty(), w),
    decreases w.len(),
{
    if w.len() > 0 {
        let p = w.drop_last();
        assert forall|j: int| 0 <= j < p.len() implies !is_ws(#[trigger] p[j]) by {
            assert(p[j] == w[j]);
        }
        lemma_split_state_no_ws(p);
        assert(!is_ws(w[w.len() - 1]));
        assert(p.push(w.last()) =~= w);
    }
}

/// A non-empty text without whitespace is a single word.
pub proof fn lemma_words_of_one_word(w: Seq<char>)
    requires
        w.len() > 0,
        forall|j: int| 0 <= j < w.len() ==> !is_ws(#[trigger] w[j]),
    ensures
        words_of(w) == seq![w],
{
    lemma_split_state_no_ws(w);
    assert(Seq::<Seq<char>>::empty().push(w) =~= seq![w]);
}

/// Every word of a text is non-empty.
pub proof fn lemma_words_nonempty(s: Seq<char>)
    ensures
        forall|i: int| 0 <= i < words_of(s).len() ==> (#[trigger] words_of(s)[i]).len() > 0,
        forall|i: int| 0 <= i < split_state(s).0.len() ==> (#[trigger] split_state(s).0[i]).len() > 0,
    decreases s.len(),
{
    if s.len() > 0 {
        lemma_words_nonempty(s.drop_last());
        let (ws, cur) = split_state(s.drop_last());
        assert forall|i: int| 0 <= i < split_state(s).0.len() implies (#[trigger] split_state(s).0[i]).len() > 0 by {
            if i < ws.len() {
                assert(split_state(s).0[i] == ws[i]);
            }
        }
    }
    let (ws, cur) = split_state(s);
    assert forall|i: int| 0 <= i < words_of(s).len() implies (#[trigger] words_of(s)[i]).len() > 0 by {
        if i < ws.len() {
            assert(words_of(s)[i] == ws[i]);
        }
    }
}

/// The ASCII whitespace characters are exactly tab, line feed, vertical
/// tab, form feed, carriage return and space; the others are the Unicode
/// `White_Space` characters next line, no-break space, ogham space mark, the
/// spaces from en quad to hair space, line and paragraph separators, narrow
/// no-break space, medium mathematical space and ideographic space.
pub proof fn lemma_whitespace_chars(c: char)
    ensures
        (c as u32) < 0x80 ==> (is_ws(c) <==> (c == '\t' || c == '\n' || c == '\u{0B}' || c == '\u{0C}'
            || c == '\r' || c == ' ')),
        (c as u32) >= 0x80 ==> (is_ws(c) <==> (c == '\u{85}' || c == '\u{A0}' || c == '\u{1680}' || (
        '\u{2000}' <= c && c <= '\u{200A}') || c == '\u{2028}' || c == '\u{2029}' || c == '\u{202F}' || c
            == '\u{205F}' || c == '\u{3000}')),
{
}

/// After a whitespace character no word is in progress.
proof fn lemma_split_state_after_ws(x: Seq<char>, c: char)
    requires
        is_ws(c),
    ensures
        split_state(x.push(c)) == (words_of(x), Seq::<char>::empty()),
{
    assert(x.push(c).drop_last() =~= x);
}

/// Reading `y` after a point where no word is in progress adds the words of
/// `y` to those read so far.
proof fn lemma_split_state_append(p: Seq<char>, y: Seq<char>)
    requires
        split_state(p).1.len() == 0,
    ensures
        split_state(p + y) == (split_state(p).0 + split_state(y).0, split_state(y).1),
    decreases y.len(),
{
    if y.len() == 0 {
        assert(p + y =~= p);
        assert(split_state(p).0 + Seq::<Seq<char>>::empty() =~= split_state(p).0);
    } else {
        lemma_split_state_append(p, y.drop_last());
        assert((p + y).drop_last() =~= p + y.drop_last());
        assert((p + y).last() == y.last());
        let (ws, cur) = split_state(y.drop_last());
        assert((split_state(p).0 + ws).push(cur) =~= split_state(p).0 + ws.push(cur));
    }
}

/// A text is split at every whitespace character: the words of `x`, a
/// whitespace character, then `y` are the words of `x` followed by the
/// words of `y`.
pub proof fn lemma_words_split_at_ws(x: Seq<char>, c: char, y: Seq<char>)
    requires
        is_ws(c),
    ensures
        words_of(x + seq![c] + y) == words_of(x) + words_of(y),
{
    lemma_split_state_after_ws(x, c);
    assert(x + seq![c] =~= x.push(c));
    lemma_split_state_append(x.push(c), y);
    assert(x + seq![c] + y =~= x.push(c) + y);
    let (ws, cur) = split_state(y);
    assert((words_of(x) + ws).push(cur) =~= words_of(x) + ws.push(cur));
}

/// The words of `s`, each as a character vector.
pub fn split_words(s: &Vec<char>) -> (r: Vec<Vec<char>>)
    ensures
        r@.map_values(|w: Vec<char>| w@) == words_of(s@),
{
    let mut ws: Vec<Vec<char>> = Vec::new();
    let mut cur: Vec<char> = Vec::new();
    let mut i: usize = 0;
    while i < s.len()
        invariant
            i <= s.len(),
            (ws@.map_values(|w: Vec<char>| w@), cur@) == split_state(s@.take(i as int)),
        decreases s.len() - i,
    {
        let c = s[i];
        proof {
            assert(s@.take(i + 1).drop_last() =~= s@.take(i as int));
        }
        if is_whitespace(c) {
            if cur.len() > 0 {
                let done = cur;
                cur = Vec::new();
                ws.push(done);
                assert(ws@.map_values(|w: Vec<char>| w@) =~= split_state(s@.take(i + 1)).0);
            }
        } else {
            cur.push(c);
        }
        i = i + 1;
    }
    assert(s@.take(s.len() as int) =~= s@);
    if cur.len() > 0 {
        ws.push(cur);
        assert(ws@.map_values(|w: Vec<char>| w@) =~= words_of(s@));
    }
    ws
}

/// The characters of `s`, in order.
pub fn chars_of(s: &str) -> (v: Vec<char>)
    ensures
        v@ == s@,
{
    let mut out: Vec<char> = Vec::new();
    for c in iter: s.chars()
        invariant
            out@ == iter.seq().take(iter.index() as int),
    {
        out.push(c);
    }
    out
}

/// A `String` holding exactly the characters of `v`.
///
/// Trusted: calls std's `FromIterator<&char> for String` (`collect`), which
/// appends each character in order; the contract says the result holds the
/// characters of `v` in order and nothing else.
#[verifier::external_body]
pub fn string_from_chars(v: &Vec<char>) -> (s: String)
    ensures
        s@ == v@,
{
    v.iter().collect::<String>()
}

/// Appends the characters of `s` to `out`.
pub fn push_str(out: &mut Vec<char>, s: &str)
    ensures
        final(out)@ == old(out)@ + s@,
{
    let cs = chars_of(s);
    push_chars(out, &cs);
}

/// Appends the characters of `src` to `out`.
pub fn push_chars(out: &mut Vec<char>, src: &Vec<char>)
    ensures
        final(out)@ == old(out)@ + src@,
{
    let mut i: usize = 0;
    while i < src.len()
        invariant
            i <= src.len(),
            out@ == old(out)@ + src@.take(i as int),
        decreases src.len() - i,
    {
        out.push(src[i]);
        assert(src@.take(i + 1) =~= src@.take(i as int).push(src@[i as int]));
        i = i + 1;
    }
    assert(src@.take(src.len() as int) =~= src@);
}

/// `n` copies of `c`.
pub open spec fn repeat_char(c: char, n: nat) -> Seq<char> {
    Seq::new(n, |_i: int| c)
}

/// Appends `n` copies of `c` to `out`.
pub fn push_repeat(out: &mut Vec<char>, c: char, n: usize)
    ensures
        final(out)@ == old(out)@ + repeat_char(c, n as nat),
{
    let mut i: usize = 0;
    while i < n
        invariant
            i <= n,
            out@ == old(out)@ + repeat_char(c, i as nat),
        decreases n - i,
    {
        out.push(c);
        assert(repeat_char(c, (i + 1) as nat) =~= repeat_char(c, i as nat).push(c));
        i = i + 1;
    }
}

/// `s` followed by spaces up to `width` characters (Rust's `{:<width}`):
/// never truncated.
pub open spec fn pad_right(s: Seq<char>, width: nat) -> Seq<char> {
    if s.len() >= width {
        s
    } else {
        s + repeat_char(' ', (width - s.len()) as nat)
    }
}

/// Appends `s` padded on the right with spaces to `width` characters.
pub fn push_padded(out: &mut Vec<char>, s: &Vec<char>, width: usize)
    ensures
        final(out)@ == old(out)@ + pad_right(s@, width as nat),
{
    push_chars(out, s);
    if s.len() < width {
        push_repeat(out, ' ', width - s.len());
    }
    assert(out@ =~= old(out)@ + pad_right(s@, width as nat));
}

/// The decimal digit for `d < 10`.
pub open spec fn digit_char(d: nat) -> char {
    if d == 0 {
        '0'
    } else if d == 1 {
        '1'
    } else if d == 2 {
        '2'
    } else if d == 3 {
        '3'
    } else if d == 4 {
        '4'
    } else if d == 5 {
        '5'
    } else if d == 6 {
        '6'
    } else if d == 7 {
        '7'
    } else if d == 8 {
        '8'
    } else {
        '9'
    }
}

/// The decimal rendering of `n`, without leading zeros (as `Display` for
/// unsigned integers writes it).
pub open spec fn decimal(n: nat) -> Seq<char>
    decreases n,
{
    if n < 10 {
        seq![digit_char(n)]
    } else {
        decimal(n / 10).push(digit_char(n % 10))
    }
}

/// The number that the decimal digits `s` denote (most significant first).
pub open spec fn digits_value(s: Seq<char>) -> int
    decreases s.len(),
{
    if s.len() == 0 {
        0
    } else {
        digits_value(s.drop_last()) * 10 + (s.last() as u32 - '0' as u32)
    }
}

proof fn lemma_digit_char(d: nat)
    requires
        d < 10,
    ensures
        '0' <= digit_char(d) <= '9',
        digit_char(d) as u32 - '0' as u32 == d,
{
}

/// The decimal rendering of `n` is made of the digits `0` to `9`, denotes
/// `n`, and has no leading zero (`0` itself is the single digit `0`).
pub proof fn lemma_decimal(n: nat)
    ensures
        decimal(n).len() > 0,
        forall|i: int| 0 <= i < decimal(n).len() ==> '0' <= #[trigger] decimal(n)[i] <= '9',
        digits_value(decimal(n)) == n,
        decimal(n)[0] == '0' ==> n == 0,
    decreases n,
{
    lemma_digit_char(n % 10);
    if n >= 10 {
        lemma_decimal(n / 10);
        let p = decimal(n / 10);
        assert(decimal(n).drop_last() =~= p);
        assert(decimal(n)[0] == p[0]);
        assert forall|i: int| 0 <= i < decimal(n).len() implies '0' <= #[trigger] decimal(n)[i] <= '9' by {
            if i < p.len() {
                assert(decimal(n)[i] == p[i]);
            }
        }
        assert(decimal(n).last() == digit_char(n % 10));
        assert(digits_value(decimal(n)) == digits_value(p) * 10 + (n % 10));
        assert((n / 10) * 10 + n % 10 == n);
    } else {
        assert(decimal(n).drop_last() =~= Seq::<char>::empty());
        assert(decimal(n).last() == digit_char(n));
        assert(digits_value(Seq::<char>::empty()) == 0);
    }
}

fn digit(d: u64) -> (c: char)
    requires
        d < 10,
    ensures
        c == digit_char(d as nat),
{
    if d == 0 {
        '0'
    } else if d == 1 {
        '1'
    } else if d == 2 {
        '2'
    } else if d == 3 {
        '3'
    } else if d == 4 {
        '4'
    } else if d == 5 {
        '5'
    } else if d == 6 {
        '6'
    } else if d == 7 {
        '7'
    } else if d == 8 {
        '8'
    } else {
        '9'
    }
}

/// Appends the decimal rendering of `n`.
pub fn push_decimal(out: &mut Vec<char>, n: u64)
    ensures
        final(out)@ == old(out)@ + decimal(n as nat),
    decreases n,
{
    if n >= 10 {
        push_decimal(out, n / 10);
    }
    out.push(digit(n % 10));
    assert(out@ =~= old(out)@ + decimal(n as nat));
}

/// Appends the decimal rendering of a `usize`.
pub fn push_usize(out: &mut Vec<char>, n: usize)
    ensures
        final(out)@ == old(out)@ + decimal(n as nat),
{
    push_decimal(out, n as u64);
}

/// The sequence with every element appearing once, at its first position.
pub open spec fn dedup<A>(s: Seq<A>) -> Seq<A>
    decreases s.len(),
{
    if s.len() == 0 {
        seq![]
    } else {
        let d = dedup(s.drop_last());
        if d.contains(s.last()) {
            d
        } else {
            d.push(s.last())
        }
    }
}

/// `dedup` keeps the first element of `s` first.
pub proof fn lemma_dedup_first<A>(s: Seq<A>)
    requires
        s.len() > 0,
    ensures
        dedup(s).len() > 0,
        dedup(s)[0] == s[0],
    decreases s.len(),
{
    if s.len() > 1 {
        lemma_dedup_first(s.drop_last());
    } else {
        assert(dedup(s.drop_last()).len() == 0);
    }
}

/// `dedup` keeps exactly the elements of `s`, each once.
pub proof fn lemma_dedup<A>(s: Seq<A>)
    ensures
        forall|x: A| #[trigger] dedup(s).contains(x) <==> s.contains(x),
        dedup(s).no_duplicates(),
        dedup(s).len() <= s.len(),
    decreases s.len(),
{
    if s.len() > 0 {
        lemma_dedup(s.drop_last());
        let d = dedup(s.drop_last());
        let last = s.last();
        assert(s =~= s.drop_last().push(last));
        assert forall|x: A| #[trigger] dedup(s).contains(x) <==> s.contains(x) by {
            if s.contains(x) {
                let k = choose|k: int| 0 <= k < s.len() && s[k] == x;
                if k < s.len() - 1 {
                    assert(s.drop_last()[k] == x);
                    assert(s.drop_last().contains(x));
                    assert(d.contains(x));
                    if !d.contains(last) {
                        let k2 = choose|k2: int| 0 <= k2 < d.len() && d[k2] == x;
                        assert(d.push(last)[k2] == x);
                    }
                } else {
                    assert(x == last);
                    if !d.contains(x) {
                        assert(d.push(x)[d.len() as int] == x);
                    }
                }
            }
            if dedup(s).contains(x) {
                let k = choose|k: int| 0 <= k < dedup(s).len() && dedup(s)[k] == x;
                if d.contains(last) {
                    assert(d.contains(x));
                    let k2 = choose|k2: int| 0 <= k2 < s.drop_last().len() && s.drop_last()[k2] == x;
                    assert(s[k2] == x);
                } else if k < d.len() {
                    assert(d[k] == x);
                    assert(d.contains(x));
                    let k2 = choose|k2: int| 0 <= k2 < s.drop_last().len() && s.drop_last()[k2] == x;
                    assert(s[k2] == x);
                } else {
                    assert(s[s.len() - 1] == x);
                }
            }
        }
    }
}

/// The parts joined by `sep` (as `join` on a list of strings).
pub open spec fn join_with(parts: Seq<Seq<char>>, sep: Seq<char>) -> Seq<char>
    decreases parts.len(),
{
    if parts.len() == 0 {
        seq![]
    } else if parts.len() == 1 {
        parts[0]
    } else {
        join_with(parts.drop_last(), sep) + sep + parts.last()
    }
}

/// The smaller of two numbers.
pub open spec fn min_nat(a: nat, b: nat) -> nat {
    if a <= b {
        a
    } else {
        b
    }
}

} // verus!
