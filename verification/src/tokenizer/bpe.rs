//! Byte-pair-encoding (BPE) tokenizer.
//!
//! Training starts from single characters and repeatedly merges the most
//! frequent adjacent pair of tokens into a new token; encoding splits a text
//! into characters and replays the learned merges in order.
use vstd::prelude::*;
use vstd::string::StringExecFns;
use super::{SpecialTokens, Tokenizer};
use super::simple::{count_distinct, views};
use crate::text::{
    chars_of, dedup, is_ws, lemma_dedup, lemma_words_nonempty, lemma_words_of_one_word, push_str, split_state,
    split_words, string_from_chars, words_of,
};

verus! {

/// Tokens are character sequences; a word is a sequence of tokens.
/// `merge_from(t, a, b, n, i)` is the tokens of `t` from position `i`, with
/// each adjacent `a`, `b` (read left to right, without overlap) replaced by `n`.
pub open spec fn merge_from(
    t: Seq<Seq<char>>,
    a: Seq<char>,
    b: Seq<char>,
    n: Seq<char>,
    i: int,
) -> Seq<Seq<char>>
    decreases t.len() - i,
{
    if i < 0 || i >= t.len() {
        seq![]
    } else if i + 1 < t.len() && t[i] == a && t[i + 1] == b {
        seq![n] + merge_from(t, a, b, n, i + 2)
    } else {
        seq![t[i]] + merge_from(t, a, b, n, i + 1)
    }
}

/// The tokens of `t` with every adjacent `a`, `b` (left to right, without
/// overlap) replaced by `n`.
pub open spec fn merged(t: Seq<Seq<char>>, a: Seq<char>, b: Seq<char>, n: Seq<char>) -> Seq<
    Seq<char>,
> {
    merge_from(t, a, b, n, 0)
}

/// Replacing `a`, `b` by their concatenation keeps the text of the tokens.
pub proof fn lemma_merge_from_flatten(t: Seq<Seq<char>>, a: Seq<char>, b: Seq<char>, i: int)
    requires
        0 <= i <= t.len(),
    ensures
        merge_from(t, a, b, a + b, i).flatten() == t.skip(i).flatten(),
        merge_from(t, a, b, a + b, i).len() <= t.len() - i,
    decreases t.len() - i,
{
    let n = a + b;
    if i < t.len() {
        if i + 1 < t.len() && t[i] == a && t[i + 1] == b {
            lemma_merge_from_flatten(t, a, b, i + 2);
            vstd::seq_lib::lemma_flatten_concat(seq![n], merge_from(t, a, b, n, i + 2));
            assert(t.skip(i) =~= seq![t[i], t[i + 1]] + t.skip(i + 2));
            vstd::seq_lib::lemma_flatten_concat(seq![t[i], t[i + 1]], t.skip(i + 2));
            assert(seq![t[i], t[i + 1]].drop_first() =~= seq![t[i + 1]]);
            seq![t[i + 1]].lemma_flatten_one_element();
            seq![n].lemma_flatten_one_element();
            assert(seq![t[i], t[i + 1]].flatten() =~= a + b);
        } else {
            lemma_merge_from_flatten(t, a, b, i + 1);
            vstd::seq_lib::lemma_flatten_concat(seq![t[i]], merge_from(t, a, b, n, i + 1));
            assert(t.skip(i) =~= seq![t[i]] + t.skip(i + 1));
            vstd::seq_lib::lemma_flatten_concat(seq![t[i]], t.skip(i + 1));
            seq![t[i]].lemma_flatten_one_element();
        }
    } else {
        assert(t.skip(i) =~= Seq::<Seq<char>>::empty());
    }
}

/// Every token after a merge was a token before it, or the merged token.
pub proof fn lemma_merge_from_tokens(t: Seq<Seq<char>>, a: Seq<char>, b: Seq<char>, n: Seq<char>, i: int)
    requires
        0 <= i <= t.len(),
    ensures
        forall|k: int|
            0 <= k < merge_from(t, a, b, n, i).len() ==> #[trigger] merge_from(t, a, b, n, i)[k] == n
                || t.contains(merge_from(t, a, b, n, i)[k]),
    decreases t.len() - i,
{
    if i < t.len() {
        if i + 1 < t.len() && t[i] == a && t[i + 1] == b {
            lemma_merge_from_tokens(t, a, b, n, i + 2);
            let r = merge_from(t, a, b, n, i + 2);
            assert forall|k: int| 0 <= k < merge_from(t, a, b, n, i).len() implies #[trigger] merge_from(t, a, b, n, i)[k] == n
                || t.contains(merge_from(t, a, b, n, i)[k]) by {
                if k > 0 {
                    assert(merge_from(t, a, b, n, i)[k] == r[k - 1]);
                }
            }
        } else {
            lemma_merge_from_tokens(t, a, b, n, i + 1);
            let r = merge_from(t, a, b, n, i + 1);
            assert forall|k: int| 0 <= k < merge_from(t, a, b, n, i).len() implies #[trigger] merge_from(t, a, b, n, i)[k] == n
                || t.contains(merge_from(t, a, b, n, i)[k]) by {
                if k > 0 {
                    assert(merge_from(t, a, b, n, i)[k] == r[k - 1]);
                } else {
                    assert(merge_from(t, a, b, n, i)[0] == t[i]);
                }
            }
        }
    }
}

/// No token of `r` equal to `a` is directly followed by one equal to `b`.
pub open spec fn no_adjacent_pair(r: Seq<Seq<char>>, a: Seq<char>, b: Seq<char>) -> bool {
    forall|k: int| 0 <= k < r.len() - 1 ==> !(#[trigger] r[k] == a && r[k + 1] == b)
}

/// Tokens without an adjacent `a`, `b` are left as they are by a merge.
proof fn lemma_merge_from_without_pair(r: Seq<Seq<char>>, a: Seq<char>, b: Seq<char>, n: Seq<char>, j: int)
    requires
        0 <= j <= r.len(),
        no_adjacent_pair(r, a, b),
    ensures
        merge_from(r, a, b, n, j) == r.skip(j),
    decreases r.len() - j,
{
    if j < r.len() {
        lemma_merge_from_without_pair(r, a, b, n, j + 1);
        assert(r.skip(j) =~= seq![r[j]] + r.skip(j + 1));
    } else {
        assert(r.skip(j) =~= Seq::<Seq<char>>::empty());
    }
}

/// After a merge of non-empty `a`, `b` into `a + b`, no adjacent `a`, `b`
/// is left, and the merged tokens from position `i` start with `t[i]` or
/// with `a + b`.
proof fn lemma_merge_from_leaves_no_pair(t: Seq<Seq<char>>, a: Seq<char>, b: Seq<char>, i: int)
    requires
        0 <= i <= t.len(),
        a.len() > 0,
        b.len() > 0,
    ensures
        no_adjacent_pair(merge_from(t, a, b, a + b, i), a, b),
        i < t.len() ==> merge_from(t, a, b, a + b, i).len() > 0 && (merge_from(t, a, b, a + b, i)[0]
            == t[i] || merge_from(t, a, b, a + b, i)[0] == a + b),
    decreases t.len() - i,
{
    let n = a + b;
    if i < t.len() {
        let r = merge_from(t, a, b, n, i);
        let merges_here = i + 1 < t.len() && t[i] == a && t[i + 1] == b;
        let next = if merges_here { i + 2 } else { i + 1 };
        lemma_merge_from_leaves_no_pair(t, a, b, next);
        let rest = merge_from(t, a, b, n, next);
        assert(r == seq![r[0]] + rest);
        assert(n.len() > a.len() && n.len() > b.len());
        assert forall|k: int| 0 <= k < r.len() - 1 implies !(#[trigger] r[k] == a && r[k + 1] == b) by {
            if k > 0 {
                assert(r[k] == rest[k - 1] && r[k + 1] == rest[k]);
            } else if !merges_here && r[0] == a {
                assert(r[1] == rest[0]);
                assert(rest[0] == t[i + 1] || rest[0] == n);
                assert(n != b);
            }
        }
    }
}

/// One merge pass of non-empty `a`, `b` into `a + b` leaves no adjacent
/// `a`, `b`; so a second pass changes nothing.
pub proof fn lemma_merge_idempotent(t: Seq<Seq<char>>, a: Seq<char>, b: Seq<char>)
    requires
        a.len() > 0,
        b.len() > 0,
    ensures
        no_adjacent_pair(merged(t, a, b, a + b), a, b),
        merged(merged(t, a, b, a + b), a, b, a + b) == merged(t, a, b, a + b),
{
    let r = merged(t, a, b, a + b);
    lemma_merge_from_leaves_no_pair(t, a, b, 0);
    lemma_merge_from_without_pair(r, a, b, a + b, 0);
    assert(r.skip(0) =~= r);
}

/// Merges `tokens`: every adjacent `a`, `b` (left to right, without overlap)
/// becomes `new_token`.
pub fn merge_pair(tokens: &[String], a: &str, b: &str, new_token: &str) -> (r: Vec<String>)
    ensures
        views(r@) == merged(views(tokens@), a@, b@, new_token@),
{
    let ghost t = views(tokens@);
    let a_s = a.to_string();
    let b_s = b.to_string();
    let mut result: Vec<String> = Vec::new();
    let mut i: usize = 0;
    while i < tokens.len()
        invariant
            i <= tokens.len(),
            t == views(tokens@),
            a_s@ == a@,
            b_s@ == b@,
            views(result@) + merge_from(t, a@, b@, new_token@, i as int) == merged(
                t,
                a@,
                b@,
                new_token@,
            ),
        decreases tokens.len() - i,
    {
        let ghost prev = result@;
        if i + 1 < tokens.len() && tokens[i] == a_s && tokens[i + 1] == b_s {
            result.push(new_token.to_string());
            proof {
                assert(views(result@) =~= views(prev).push(new_token@));
                assert(views(result@) + merge_from(t, a@, b@, new_token@, i + 2) =~= views(prev)
                    + merge_from(t, a@, b@, new_token@, i as int));
            }
            i = i + 2;
        } else {
            result.push(tokens[i].clone());
            proof {
                assert(views(result@) =~= views(prev).push(t[i as int]));
                assert(views(result@) + merge_from(t, a@, b@, new_token@, i + 1) =~= views(prev)
                    + merge_from(t, a@, b@, new_token@, i as int));
            }
            i = i + 1;
        }
    }
    assert(merge_from(t, a@, b@, new_token@, i as int) =~= Seq::<Seq<char>>::empty());
    assert(views(result@) =~= merged(t, a@, b@, new_token@));
    result
}

/// The token sequences of a list of words.
pub open spec fn words_view(v: Seq<Vec<String>>) -> Seq<Seq<Seq<char>>> {
    v.map_values(|w: Vec<String>| views(w@))
}

/// The pairs of a list of string pairs, as character sequences.
pub open spec fn pairs_view(v: Seq<(String, String)>) -> Seq<(Seq<char>, Seq<char>)> {
    v.map_values(|p: (String, String)| (p.0@, p.1@))
}

/// Every word of `ws` with the pair `a`, `b` merged into `a + b`.
pub open spec fn merge_all(ws: Seq<Seq<Seq<char>>>, a: Seq<char>, b: Seq<char>) -> Seq<Seq<Seq<char>>> {
    ws.map_values(|w: Seq<Seq<char>>| merged(w, a, b, a + b))
}

/// The tokens of `t` after applying the merges `m` in order.
pub open spec fn apply_merges_word(t: Seq<Seq<char>>, m: Seq<(Seq<char>, Seq<char>)>) -> Seq<Seq<char>>
    decreases m.len(),
{
    if m.len() == 0 {
        t
    } else {
        let p = m.last();
        merged(apply_merges_word(t, m.drop_last()), p.0, p.1, p.0 + p.1)
    }
}

/// Every word of `ws` after applying the merges `m` in order.
pub open spec fn apply_merges(ws: Seq<Seq<Seq<char>>>, m: Seq<(Seq<char>, Seq<char>)>) -> Seq<Seq<Seq<char>>> {
    ws.map_values(|w: Seq<Seq<char>>| apply_merges_word(w, m))
}

/// The number of positions of `w` where `a` is directly followed by `b`.
pub open spec fn count_in_word(w: Seq<Seq<char>>, a: Seq<char>, b: Seq<char>) -> nat
    decreases w.len(),
{
    if w.len() < 2 {
        0
    } else {
        count_in_word(w.drop_last(), a, b) + if w[w.len() - 2] == a && w[w.len() - 1] == b {
            1nat
        } else {
            0nat
        }
    }
}

/// The number of positions, over all words of `ws`, where `a` is directly
/// followed by `b` (the frequency of the adjacent pair).
pub open spec fn pair_count(ws: Seq<Seq<Seq<char>>>, a: Seq<char>, b: Seq<char>) -> nat
    decreases ws.len(),
{
    if ws.len() == 0 {
        0
    } else {
        pair_count(ws.drop_last(), a, b) + count_in_word(ws.last(), a, b)
    }
}

/// The positions `q` of `w` where the token `a` stands directly before `b`.
pub open spec fn pair_positions(w: Seq<Seq<char>>, a: Seq<char>, b: Seq<char>) -> Set<int> {
    Set::new(|q: int| 0 <= q && q + 1 < w.len() && w[q] == a && w[q + 1] == b)
}

/// The places `(p, q)` over all words of `ws` where, in word `p`, the token
/// `a` stands at position `q` directly before `b`.
pub open spec fn pair_occurrences(ws: Seq<Seq<Seq<char>>>, a: Seq<char>, b: Seq<char>) -> Set<(int, int)> {
    Set::new(
        |pq: (int, int)|
            0 <= pq.0 < ws.len() && 0 <= pq.1 && pq.1 + 1 < ws[pq.0].len() && ws[pq.0][pq.1] == a
                && ws[pq.0][pq.1 + 1] == b,
    )
}

/// The frequency of a pair in a word counts every position where it stands,
/// not just whether it occurs: `a b a b` holds `a, b` twice.
pub proof fn lemma_count_in_word_positions(w: Seq<Seq<char>>, a: Seq<char>, b: Seq<char>)
    ensures
        pair_positions(w, a, b).finite(),
        count_in_word(w, a, b) == pair_positions(w, a, b).len(),
    decreases w.len(),
{
    let s = pair_positions(w, a, b);
    if w.len() < 2 {
        assert(s =~= Set::<int>::empty());
    } else {
        let p = w.drop_last();
        lemma_count_in_word_positions(p, a, b);
        let sp = pair_positions(p, a, b);
        let x = w.len() - 2;
        assert forall|q: int| sp.contains(q) <==> (s.contains(q) && q != x) by {
            if 0 <= q && q + 1 < p.len() {
                assert(p[q] == w[q] && p[q + 1] == w[q + 1]);
            }
        }
        if w[x] == a && w[x + 1] == b {
            assert(s =~= sp.insert(x));
        } else {
            assert(s =~= sp);
        }
    }
}

/// The frequency of a pair over a list of words is the number of places,
/// over all words, where it stands: the frequency that training maximises.
pub proof fn lemma_pair_count_occurrences(ws: Seq<Seq<Seq<char>>>, a: Seq<char>, b: Seq<char>)
    ensures
        pair_occurrences(ws, a, b).finite(),
        pair_count(ws, a, b) == pair_occurrences(ws, a, b).len(),
    decreases ws.len(),
{
    let occ = pair_occurrences(ws, a, b);
    if ws.len() == 0 {
        assert(occ =~= Set::<(int, int)>::empty());
    } else {
        let n = ws.len() - 1;
        let prev_ws = ws.drop_last();
        lemma_pair_count_occurrences(prev_ws, a, b);
        lemma_count_in_word_positions(ws.last(), a, b);
        let prev = pair_occurrences(prev_ws, a, b);
        let pos = pair_positions(ws.last(), a, b);
        let f = |q: int| (n, q);
        let new = pos.map(f);
        assert(vstd::relations::injective_on(f, pos));
        vstd::set_lib::lemma_map_size(pos, new, f);
        assert forall|pq: (int, int)| #[trigger] occ.contains(pq) <==> prev.contains(pq) || new.contains(pq) by {
            if 0 <= pq.0 < n {
                assert(prev_ws[pq.0] == ws[pq.0]);
            }
            if pq.0 == n && occ.contains(pq) {
                assert(pos.contains(pq.1));
                assert(f(pq.1) == pq);
            }
            if new.contains(pq) {
                let q = choose|q: int| pos.contains(q) && f(q) == pq;
                assert(ws[n] == ws.last());
            }
        }
        assert(occ =~= prev + new);
        assert(prev.disjoint(new));
        vstd::set_lib::lemma_set_disjoint_lens(prev, new);
    }
}

/// The frequency of the pair that starts at position `q` of word `p`.
pub open spec fn pos_count(ws: Seq<Seq<Seq<char>>>, p: int, q: int) -> nat {
    pair_count(ws, ws[p][q], ws[p][q + 1])
}

/// `a`, `b` occurs and no adjacent pair is more frequent.
pub open spec fn is_best_pair(ws: Seq<Seq<Seq<char>>>, a: Seq<char>, b: Seq<char>) -> bool {
    &&& pair_count(ws, a, b) > 0
    &&& forall|x: Seq<char>, y: Seq<char>| #[trigger] pair_count(ws, x, y) <= pair_count(ws, a, b)
}

/// Some word has at least two tokens.
pub open spec fn has_pair(ws: Seq<Seq<Seq<char>>>) -> bool {
    exists|i: int| 0 <= i < ws.len() && #[trigger] ws[i].len() >= 2
}

/// The single-character tokens of a word.
pub open spec fn char_tokens(w: Seq<char>) -> Seq<Seq<char>> {
    w.map_values(|c: char| seq![c])
}

/// The words of `text` as single-character tokens.
pub open spec fn initial_words(text: Seq<char>) -> Seq<Seq<Seq<char>>> {
    words_of(text).map_values(|w: Seq<char>| char_tokens(w))
}

/// Each merge of `m` is a most frequent pair of the words as they stand
/// after the merges before it.
pub open spec fn valid_merges(ws0: Seq<Seq<Seq<char>>>, m: Seq<(Seq<char>, Seq<char>)>) -> bool {
    forall|k: int| 0 <= k < m.len() ==> is_best_pair(#[trigger] apply_merges(ws0, m.take(k)), m[k].0, m[k].1)
}

/// The special tokens that open a trained vocabulary, ids 0 to 3.
pub open spec fn bpe_specials() -> Seq<Seq<char>> {
    seq!["<pad>"@, "<unk>"@, "<bos>"@, "<eos>"@]
}

/// The special ids of a trained tokenizer.
pub open spec fn bpe_special_ids() -> SpecialTokens {
    SpecialTokens { pad: Some(0), unk: Some(1), bos: Some(2), eos: Some(3), mask: None }
}

/// The vocabulary of training on `text` with merges `m`, by id: the special
/// tokens, each distinct character of `text` in order of first occurrence,
/// then the token of each merge.
pub open spec fn trained_tokens(text: Seq<char>, m: Seq<(Seq<char>, Seq<char>)>) -> Seq<Seq<char>> {
    bpe_specials() + char_tokens(dedup(text)) + m.map_values(|p: (Seq<char>, Seq<char>)| p.0 + p.1)
}

/// Each token paired with its position as id.
pub open spec fn indexed(s: Seq<Seq<char>>) -> Seq<(Seq<char>, usize)> {
    s.map(|k: int, t: Seq<char>| (t, k as usize))
}

/// Each position as id paired with its token.
pub open spec fn indexed_ids(s: Seq<Seq<char>>) -> Seq<(usize, Seq<char>)> {
    s.map(|k: int, t: Seq<char>| (k as usize, t))
}

/// The number of tokens over all words.
pub open spec fn total_len(ws: Seq<Seq<Seq<char>>>) -> nat
    decreases ws.len(),
{
    if ws.len() == 0 {
        0
    } else {
        total_len(ws.drop_last()) + ws.last().len()
    }
}

proof fn lemma_total_len_take(ws: Seq<Seq<Seq<char>>>, k: int)
    requires
        0 <= k <= ws.len(),
    ensures
        total_len(ws.take(k)) <= total_len(ws),
    decreases ws.len(),
{
    if k < ws.len() {
        assert(ws.drop_last().take(k) =~= ws.take(k));
        lemma_total_len_take(ws.drop_last(), k);
    } else {
        assert(ws.take(k) =~= ws);
    }
}

proof fn lemma_count_in_word(w: Seq<Seq<char>>, a: Seq<char>, b: Seq<char>)
    ensures
        count_in_word(w, a, b) <= w.len(),
        count_in_word(w, a, b) > 0 <==> exists|q: int| #![trigger w[q]] 0 <= q && q + 1 < w.len() && w[q] == a && w[q + 1] == b,
    decreases w.len(),
{
    if w.len() >= 2 {
        let p = w.drop_last();
        lemma_count_in_word(p, a, b);
        if exists|q: int| #![trigger w[q]] 0 <= q && q + 1 < w.len() && w[q] == a && w[q + 1] == b {
            let q = choose|q: int| #![trigger w[q]] 0 <= q && q + 1 < w.len() && w[q] == a && w[q + 1] == b;
            if q + 1 < p.len() {
                assert(p[q] == a && p[q + 1] == b);
            }
        }
        if count_in_word(p, a, b) > 0 {
            let q = choose|q: int| #![trigger p[q]] 0 <= q && q + 1 < p.len() && p[q] == a && p[q + 1] == b;
            assert(w[q] == a && w[q + 1] == b);
        }
    }
}

proof fn lemma_pair_count(ws: Seq<Seq<Seq<char>>>, a: Seq<char>, b: Seq<char>)
    ensures
        pair_count(ws, a, b) <= total_len(ws),
        pair_count(ws, a, b) > 0 <==> exists|p: int, q: int| #![trigger ws[p][q]]
            0 <= p < ws.len() && 0 <= q && q + 1 < ws[p].len() && ws[p][q] == a && ws[p][q + 1] == b,
    decreases ws.len(),
{
    if ws.len() > 0 {
        let d = ws.drop_last();
        lemma_pair_count(d, a, b);
        lemma_count_in_word(ws.last(), a, b);
        if exists|p: int, q: int| #![trigger ws[p][q]]
            0 <= p < ws.len() && 0 <= q && q + 1 < ws[p].len() && ws[p][q] == a && ws[p][q + 1] == b {
            let (p, q) = choose|p: int, q: int| #![trigger ws[p][q]]
                0 <= p < ws.len() && 0 <= q && q + 1 < ws[p].len() && ws[p][q] == a && ws[p][q + 1] == b;
            if p < d.len() {
                assert(d[p] == ws[p]);
            } else {
                assert(ws.last() == ws[p]);
            }
        }
        if pair_count(d, a, b) > 0 {
            let (p, q) = choose|p: int, q: int| #![trigger d[p][q]]
                0 <= p < d.len() && 0 <= q && q + 1 < d[p].len() && d[p][q] == a && d[p][q + 1] == b;
            assert(ws[p] == d[p]);
        }
        if count_in_word(ws.last(), a, b) > 0 {
            let q = choose|q: int| #![trigger ws.last()[q]] 0 <= q && q + 1 < ws.last().len() && ws.last()[q] == a && ws.last()[q + 1] == b;
            assert(ws[ws.len() - 1][q] == a);
        }
    }
}

/// The frequency of the adjacent pair `a`, `b` over all words.
pub fn count_pair(words: &Vec<Vec<String>>, a: &String, b: &String) -> (r: usize)
    requires
        total_len(words_view(words@)) <= usize::MAX,
    ensures
        r == pair_count(words_view(words@), a@, b@),
{
    let ghost ws = words_view(words@);
    let mut count: usize = 0;
    let mut p: usize = 0;
    while p < words.len()
        invariant
            p <= words.len(),
            ws == words_view(words@),
            total_len(ws) <= usize::MAX,
            count == pair_count(ws.take(p as int), a@, b@),
            count <= total_len(ws.take(p as int)),
        decreases words.len() - p,
    {
        let w = &words[p];
        let ghost wv = ws[p as int];
        proof {
            assert(wv == views(w@));
            lemma_total_len_take(ws, p + 1);
            assert(ws.take(p + 1).drop_last() =~= ws.take(p as int));
        }
        let mut q: usize = 0;
        let ghost base = count;
        while q < w.len()
            invariant
                q <= w.len(),
                wv == views(w@),
                count == base + count_in_word(wv.take(q as int), a@, b@),
                count_in_word(wv.take(q as int), a@, b@) <= q,
                base + w.len() <= usize::MAX,
            decreases w.len() - q,
        {
            proof {
                assert(wv.take(q + 1).drop_last() =~= wv.take(q as int));
            }
            if q >= 1 && w[q - 1] == *a && w[q] == *b {
                count = count + 1;
            }
            q = q + 1;
        }
        proof {
            assert(wv.take(w.len() as int) =~= wv);
            lemma_count_in_word(wv, a@, b@);
        }
        p = p + 1;
    }
    assert(ws.take(words.len() as int) =~= ws);
    count
}

/// A most frequent adjacent pair: the word and position where it first
/// occurs, and its frequency; `None` when no word has two tokens.
pub fn find_best_pair(words: &Vec<Vec<String>>) -> (r: Option<(usize, usize, usize)>)
    requires
        total_len(words_view(words@)) <= usize::MAX,
    ensures
        r is None <==> !has_pair(words_view(words@)),
        r matches Some((p, q, c)) ==> {
            let ws = words_view(words@);
            &&& p < ws.len()
            &&& q + 1 < ws[p as int].len()
            &&& c == pair_count(ws, ws[p as int][q as int], ws[p as int][q + 1])
            &&& is_best_pair(ws, ws[p as int][q as int], ws[p as int][q + 1])
        },
{
    let ghost ws = words_view(words@);
    let mut best: Option<(usize, usize, usize)> = None;
    let mut p: usize = 0;
    while p < words.len()
        invariant
            p <= words.len(),
            ws == words_view(words@),
            total_len(ws) <= usize::MAX,
            forall|p2: int, q2: int|
                0 <= p2 < p && 0 <= q2 && q2 + 1 < ws[p2].len() ==> match best {
                    Some((_, _, c)) => #[trigger] pos_count(ws, p2, q2) <= c,
                    None => false,
                },
            best matches Some((bp, bq, c)) ==> bp < ws.len() && bq + 1 < ws[bp as int].len() && c
                == pos_count(ws, bp as int, bq as int),
            best is None ==> forall|p2: int| 0 <= p2 < p ==> #[trigger] ws[p2].len() < 2,
        decreases words.len() - p,
    {
        let w = &words[p];
        proof {
            assert(ws[p as int] == views(w@));
        }
        let mut q: usize = 0;
        while q + 1 < w.len()
            invariant
                p < words.len(),
                ws == words_view(words@),
                total_len(ws) <= usize::MAX,
                ws[p as int] == views(w@),
                q == 0 || q + 1 <= w.len(),
                forall|p2: int, q2: int|
                    0 <= p2 < ws.len() && 0 <= q2 && q2 + 1 < ws[p2].len() && (p2 < p || (p2 == p
                        && q2 < q)) ==> match best {
                        Some((_, _, c)) => #[trigger] pos_count(ws, p2, q2) <= c,
                        None => false,
                    },
                best matches Some((bp, bq, c)) ==> bp < ws.len() && bq + 1 < ws[bp as int].len() && c
                    == pos_count(ws, bp as int, bq as int),
                best is None ==> forall|p2: int| 0 <= p2 < p ==> #[trigger] ws[p2].len() < 2,
                best is None ==> q == 0,
            decreases w.len() - q,
        {
            let c = count_pair(words, &w[q], &w[q + 1]);
            proof {
                assert(c == pos_count(ws, p as int, q as int));
            }
            let better = match best {
                Some((_, _, bc)) => c > bc,
                None => true,
            };
            if better {
                best = Some((p, q, c));
            }
            q = q + 1;
        }
        p = p + 1;
    }
    proof {
        match best {
            Some((bp, bq, bc)) => {
                let a = ws[bp as int][bq as int];
                let b = ws[bp as int][bq + 1];
                lemma_pair_count(ws, a, b);
                assert(pos_count(ws, bp as int, bq as int) == pair_count(ws, a, b));
                assert forall|x: Seq<char>, y: Seq<char>| #[trigger] pair_count(ws, x, y) <= pair_count(ws, a, b) by {
                    lemma_pair_count(ws, x, y);
                    if pair_count(ws, x, y) > 0 {
                        let (p2, q2) = choose|p2: int, q2: int| #![trigger ws[p2][q2]]
                            0 <= p2 < ws.len() && 0 <= q2 && q2 + 1 < ws[p2].len() && ws[p2][q2] == x && ws[p2][q2 + 1] == y;
                        assert(pos_count(ws, p2, q2) <= bc);
                    }
                }
                if !has_pair(ws) {
                    assert(ws[bp as int].len() >= 2);
                }
            },
            None => {
                if has_pair(ws) {
                    let i = choose|i: int| 0 <= i < ws.len() && #[trigger] ws[i].len() >= 2;
                    assert(ws[i].len() < 2);
                }
            },
        }
    }
    best
}

proof fn lemma_split_state_total(s: Seq<char>)
    ensures
        total_len_chars(split_state(s).0) + split_state(s).1.len() <= s.len(),
    decreases s.len(),
{
    if s.len() > 0 {
        lemma_split_state_total(s.drop_last());
        let (ws, cur) = split_state(s.drop_last());
        if cur.len() > 0 {
            assert(ws.push(cur).drop_last() =~= ws);
        }
    }
}

/// The number of characters over all words.
pub open spec fn total_len_chars(ws: Seq<Seq<char>>) -> nat
    decreases ws.len(),
{
    if ws.len() == 0 {
        0
    } else {
        total_len_chars(ws.drop_last()) + ws.last().len()
    }
}

proof fn lemma_initial_total(ws: Seq<Seq<char>>)
    ensures
        total_len(ws.map_values(|w: Seq<char>| char_tokens(w))) == total_len_chars(ws),
    decreases ws.len(),
{
    if ws.len() > 0 {
        lemma_initial_total(ws.drop_last());
        assert(ws.map_values(|w: Seq<char>| char_tokens(w)).drop_last() =~= ws.drop_last().map_values(
            |w: Seq<char>| char_tokens(w),
        ));
    }
}

proof fn lemma_initial_words_total(text: Seq<char>)
    ensures
        total_len(initial_words(text)) <= text.len(),
{
    lemma_split_state_total(text);
    lemma_initial_total(words_of(text));
    let (ws, cur) = split_state(text);
    if cur.len() > 0 {
        assert(ws.push(cur).drop_last() =~= ws);
    }
}

proof fn lemma_merge_all_total(ws: Seq<Seq<Seq<char>>>, a: Seq<char>, b: Seq<char>)
    ensures
        total_len(merge_all(ws, a, b)) <= total_len(ws),
    decreases ws.len(),
{
    if ws.len() > 0 {
        lemma_merge_all_total(ws.drop_last(), a, b);
        assert(merge_all(ws, a, b).drop_last() =~= merge_all(ws.drop_last(), a, b));
        lemma_merge_from_flatten(ws.last(), a, b, 0);
    }
}

proof fn lemma_apply_merges_push(ws: Seq<Seq<Seq<char>>>, m: Seq<(Seq<char>, Seq<char>)>, p: (Seq<char>, Seq<char>))
    ensures
        apply_merges(ws, m.push(p)) == merge_all(apply_merges(ws, m), p.0, p.1),
{
    assert(m.push(p).drop_last() =~= m);
    assert(apply_merges(ws, m.push(p)) =~= merge_all(apply_merges(ws, m), p.0, p.1));
}

proof fn lemma_valid_merges_push(ws: Seq<Seq<Seq<char>>>, m: Seq<(Seq<char>, Seq<char>)>, p: (Seq<char>, Seq<char>))
    requires
        valid_merges(ws, m),
        is_best_pair(apply_merges(ws, m), p.0, p.1),
    ensures
        valid_merges(ws, m.push(p)),
{
    let m2 = m.push(p);
    assert forall|k: int| 0 <= k < m2.len() implies is_best_pair(#[trigger] apply_merges(ws, m2.take(k)), m2[k].0, m2[k].1) by {
        if k < m.len() {
            assert(m2.take(k) =~= m.take(k));
            assert(is_best_pair(apply_merges(ws, m.take(k)), m[k].0, m[k].1));
        } else {
            assert(m2.take(k) =~= m);
        }
    }
}

/// A one-character string.
fn char_string(c: char) -> (s: String)
    ensures
        s@ == seq![c],
{
    let mut v: Vec<char> = Vec::new();
    v.push(c);
    assert(v@ =~= seq![c]);
    string_from_chars(&v)
}

/// The single-character tokens of `w`.
fn initial_word(w: &Vec<char>) -> (r: Vec<String>)
    ensures
        views(r@) == char_tokens(w@),
{
    let mut r: Vec<String> = Vec::new();
    let mut i: usize = 0;
    while i < w.len()
        invariant
            i <= w.len(),
            views(r@) == char_tokens(w@.take(i as int)),
        decreases w.len() - i,
    {
        let ghost prev = r@;
        let cs = char_string(w[i]);
        r.push(cs);
        assert(views(r@) =~= views(prev).push(seq![w@[i as int]]));
        assert(char_tokens(w@.take(i + 1)) =~= char_tokens(w@.take(i as int)).push(seq![w@[i as int]]));
        i = i + 1;
    }
    assert(w@.take(w.len() as int) =~= w@);
    r
}

/// Every word with `a`, `b` merged into `n`.
fn merge_words(words: &Vec<Vec<String>>, a: &String, b: &String, n: &String) -> (r: Vec<Vec<String>>)
    requires
        n@ == a@ + b@,
    ensures
        words_view(r@) == merge_all(words_view(words@), a@, b@),
{
    let mut r: Vec<Vec<String>> = Vec::new();
    let mut i: usize = 0;
    while i < words.len()
        invariant
            i <= words.len(),
            n@ == a@ + b@,
            words_view(r@) == merge_all(words_view(words@).take(i as int), a@, b@),
        decreases words.len() - i,
    {
        let w = merge_pair(words[i].as_slice(), a.as_str(), b.as_str(), n.as_str());
        let ghost prev = r@;
        let ghost wv = views(w@);
        r.push(w);
        assert(words_view(words@)[i as int] == views(words@[i as int]@));
        assert(words_view(r@) =~= words_view(prev).push(wv));
        assert(merge_all(words_view(words@).take(i + 1), a@, b@) =~= merge_all(words_view(words@).take(i as int), a@, b@).push(wv));
        i = i + 1;
    }
    assert(words_view(words@).take(words.len() as int) =~= words_view(words@));
    r
}

/// Whether `c` is in `v`.
fn contains_char(v: &Vec<char>, c: char) -> (r: bool)
    ensures
        r == v@.contains(c),
{
    let mut i: usize = 0;
    while i < v.len()
        invariant
            i <= v.len(),
            forall|j: int| 0 <= j < i ==> v@[j] != c,
        decreases v.len() - i,
    {
        if v[i] == c {
            return true;
        }
        i = i + 1;
    }
    false
}

/// The token/id entries of a list of `(String, usize)` pairs.
pub open spec fn token_entries_view(v: Seq<(String, usize)>) -> Seq<(Seq<char>, usize)> {
    v.map_values(|e: (String, usize)| (e.0@, e.1))
}

/// The id/token entries of a list of `(usize, String)` pairs.
pub open spec fn id_entries_view(v: Seq<(usize, String)>) -> Seq<(usize, Seq<char>)> {
    v.map_values(|e: (usize, String)| (e.0, e.1@))
}

/// The id of token `t`: the last entry for it.
pub open spec fn token_lookup(e: Seq<(Seq<char>, usize)>, t: Seq<char>) -> Option<usize>
    decreases e.len(),
{
    if e.len() == 0 {
        None
    } else if e.last().0 == t {
        Some(e.last().1)
    } else {
        token_lookup(e.drop_last(), t)
    }
}

/// The token of id `id`: the last entry for it.
pub open spec fn id_lookup(e: Seq<(usize, Seq<char>)>, id: usize) -> Option<Seq<char>>
    decreases e.len(),
{
    if e.len() == 0 {
        None
    } else if e.last().0 == id {
        Some(e.last().1)
    } else {
        id_lookup(e.drop_last(), id)
    }
}

/// The tokens of `text` under the merges `m`: each whitespace-separated word
/// is split into characters, the merges are applied to it in order, and the
/// tokens of all words are concatenated.
pub open spec fn tokenize_spec(text: Seq<char>, m: Seq<(Seq<char>, Seq<char>)>) -> Seq<Seq<char>> {
    words_of(text).map_values(|w: Seq<char>| apply_merges_word(char_tokens(w), m)).flatten()
}

/// A byte-pair-encoding tokenizer.
///
/// Both tables are lists of entries; a lookup takes the last entry that
/// matches, as later insertions into a map replace earlier ones.
#[derive(Clone)]
pub struct BPETokenizer {
    token_to_id: Vec<(String, usize)>,
    id_to_token: Vec<(usize, String)>,
    merges: Vec<(String, String)>,
    special_tokens: SpecialTokens,
}

impl BPETokenizer {
    /// The token-to-id entries.
    pub closed spec fn token_entries(&self) -> Seq<(Seq<char>, usize)> {
        token_entries_view(self.token_to_id@)
    }

    /// The id-to-token entries.
    pub closed spec fn id_entries(&self) -> Seq<(usize, Seq<char>)> {
        id_entries_view(self.id_to_token@)
    }

    /// The merge rules, in the order they are applied.
    pub closed spec fn merge_list(&self) -> Seq<(Seq<char>, Seq<char>)> {
        pairs_view(self.merges@)
    }

    /// The special token ids.
    pub closed spec fn specials(&self) -> SpecialTokens {
        self.special_tokens
    }

    /// Learns a BPE vocabulary of (at most) `vocab_size` tokens from `text`.
    ///
    /// The vocabulary starts with `<pad>`, `<unk>`, `<bos>`, `<eos>` (ids 0 to
    /// 3) and every distinct character of `text` (whitespace included), in
    /// order of first occurrence. Then, while the vocabulary is smaller than
    /// `vocab_size` and some word of `text` (as tokens) has two tokens, a most
    /// frequent adjacent pair of the words is merged everywhere and its
    /// concatenation gets the next id.
    pub fn train(text: &str, vocab_size: usize) -> (t: Self)
        requires
            text@.len() <= usize::MAX - 4,
        ensures
            ({
                let d = dedup(text@);
                let m = t.merge_list();
                let w0 = initial_words(text@);
                &&& valid_merges(w0, m)
                &&& 4 + d.len() + m.len() <= vocab_size || m.len() == 0
                &&& 4 + d.len() + m.len() < vocab_size ==> !has_pair(apply_merges(w0, m))
                &&& t.token_entries() == indexed(trained_tokens(text@, m))
                &&& t.id_entries() == indexed_ids(trained_tokens(text@, m))
                &&& trained_tokens(text@, m).len() <= usize::MAX
                &&& t.specials() == bpe_special_ids()
            }),
    {
        let chars = chars_of(text);
        let mut token_to_id: Vec<(String, usize)> = Vec::new();
        let mut id_to_token: Vec<(usize, String)> = Vec::new();
        token_to_id.push(("<pad>".to_string(), 0));
        token_to_id.push(("<unk>".to_string(), 1));
        token_to_id.push(("<bos>".to_string(), 2));
        token_to_id.push(("<eos>".to_string(), 3));
        id_to_token.push((0, "<pad>".to_string()));
        id_to_token.push((1, "<unk>".to_string()));
        id_to_token.push((2, "<bos>".to_string()));
        id_to_token.push((3, "<eos>".to_string()));
        let mut alphabet: Vec<char> = Vec::new();
        let mut next_id: usize = 4;
        proof {
            assert(text@.take(0) =~= Seq::<char>::empty());
            assert(char_tokens(alphabet@) =~= Seq::<Seq<char>>::empty());
            assert(token_entries_view(token_to_id@) =~= indexed(bpe_specials() + char_tokens(alphabet@)));
            assert(id_entries_view(id_to_token@) =~= indexed_ids(bpe_specials() + char_tokens(alphabet@)));
        }
        let mut i: usize = 0;
        while i < chars.len()
            invariant
                i <= chars.len(),
                chars@ == text@,
                text@.len() <= usize::MAX - 4,
                alphabet@ == dedup(text@.take(i as int)),
                alphabet@.len() <= i,
                next_id == 4 + alphabet@.len(),
                token_entries_view(token_to_id@) == indexed(bpe_specials() + char_tokens(alphabet@)),
                id_entries_view(id_to_token@) == indexed_ids(bpe_specials() + char_tokens(alphabet@)),
            decreases chars.len() - i,
        {
            let c = chars[i];
            proof {
                assert(text@.take(i + 1).drop_last() =~= text@.take(i as int));
                assert(text@.take(i + 1).last() == c);
            }
            if !contains_char(&alphabet, c) {
                let ghost old_tokens = bpe_specials() + char_tokens(alphabet@);
                let ghost old_t = token_to_id@;
                let ghost old_i = id_to_token@;
                alphabet.push(c);
                let s1 = char_string(c);
                let s2 = char_string(c);
                token_to_id.push((s1, next_id));
                id_to_token.push((next_id, s2));
                proof {
                    assert(bpe_specials() + char_tokens(alphabet@) =~= old_tokens.push(seq![c]));
                    assert(token_entries_view(token_to_id@) =~= token_entries_view(old_t).push((seq![c], next_id)));
                    assert(id_entries_view(id_to_token@) =~= id_entries_view(old_i).push((next_id, seq![c])));
                    assert(indexed(old_tokens.push(seq![c])) =~= indexed(old_tokens).push((seq![c], old_tokens.len() as usize)));
                    assert(indexed_ids(old_tokens.push(seq![c])) =~= indexed_ids(old_tokens).push((old_tokens.len() as usize, seq![c])));
                    assert(token_entries_view(token_to_id@) =~= indexed(old_tokens.push(seq![c])));
                    assert(id_entries_view(id_to_token@) =~= indexed_ids(old_tokens.push(seq![c])));
                }
                next_id = next_id + 1;
            }
            i = i + 1;
        }
        proof {
            assert(text@.take(chars.len() as int) =~= text@);
        }
        let ghost d = alphabet@;
        let ghost w0 = initial_words(text@);
        let ghost base = next_id;
        let raw = split_words(&chars);
        let mut words: Vec<Vec<String>> = Vec::new();
        let mut k: usize = 0;
        while k < raw.len()
            invariant
                k <= raw.len(),
                raw@.map_values(|w: Vec<char>| w@) == words_of(text@),
                words_view(words@) == words_of(text@).take(k as int).map_values(|w: Seq<char>| char_tokens(w)),
            decreases raw.len() - k,
        {
            let w = initial_word(&raw[k]);
            let ghost prev = words@;
            let ghost wv = views(w@);
            words.push(w);
            proof {
                assert(raw@.map_values(|w: Vec<char>| w@)[k as int] == raw@[k as int]@);
                assert(words_view(words@) =~= words_view(prev).push(wv));
                assert(words_of(text@).take(k + 1).map_values(|w: Seq<char>| char_tokens(w)) =~= words_of(text@).take(k as int).map_values(|w: Seq<char>| char_tokens(w)).push(char_tokens(raw@[k as int]@)));
                assert(words_view(words@) =~= words_of(text@).take(k + 1).map_values(|w: Seq<char>| char_tokens(w)));
            }
            k = k + 1;
        }
        proof {
            assert(words_of(text@).take(raw.len() as int) =~= words_of(text@));
            lemma_initial_words_total(text@);
        }
        let mut merges: Vec<(String, String)> = Vec::new();
        let mut done = false;
        proof {
            assert(pairs_view(merges@) =~= Seq::<(Seq<char>, Seq<char>)>::empty());
            assert(apply_merges(w0, pairs_view(merges@)) =~= w0);
            assert(trained_tokens(text@, pairs_view(merges@)) =~= bpe_specials() + char_tokens(d));
        }
        while !done && next_id < vocab_size
            invariant
                d == dedup(text@),
                w0 == initial_words(text@),
                base == 4 + d.len(),
                next_id == base + merges@.len(),
                next_id <= vocab_size || merges@.len() == 0,
                total_len(words_view(words@)) <= text@.len(),
                text@.len() <= usize::MAX - 4,
                words_view(words@) == apply_merges(w0, pairs_view(merges@)),
                valid_merges(w0, pairs_view(merges@)),
                done ==> !has_pair(apply_merges(w0, pairs_view(merges@))),
                token_entries_view(token_to_id@) == indexed(trained_tokens(text@, pairs_view(merges@))),
                id_entries_view(id_to_token@) == indexed_ids(trained_tokens(text@, pairs_view(merges@))),
            decreases vocab_size - next_id + if done {
                0int
            } else {
                1int
            },
        {
            match find_best_pair(&words) {
                None => {
                    done = true;
                },
                Some((p, q, _c)) => {
                    assert(words_view(words@)[p as int] == views(words@[p as int]@));
                    let wlen = words[p].len();
                    assert(q + 1 < wlen);
                    let a = words[p][q].clone();
                    let b = words[p][q + 1].clone();
                    let ghost m = pairs_view(merges@);
                    let ghost pr = (a@, b@);
                    let mut n = a.clone();
                    n.append(b.as_str());
                    let new_words = merge_words(&words, &a, &b, &n);
                    let ghost old_tokens = trained_tokens(text@, m);
                    let ghost old_t = token_to_id@;
                    let ghost old_i = id_to_token@;
                    let ghost nv = n@;
                    token_to_id.push((n.clone(), next_id));
                    id_to_token.push((next_id, n));
                    merges.push((a, b));
                    proof {
                        assert(pairs_view(merges@) =~= m.push(pr));
                        lemma_apply_merges_push(w0, m, pr);
                        lemma_valid_merges_push(w0, m, pr);
                        lemma_merge_all_total(words_view(words@), pr.0, pr.1);
                        assert(trained_tokens(text@, m.push(pr)) =~= old_tokens.push(pr.0 + pr.1));
                        assert(token_entries_view(token_to_id@) =~= token_entries_view(old_t).push((nv, next_id)));
                        assert(id_entries_view(id_to_token@) =~= id_entries_view(old_i).push((next_id, nv)));
                        assert(indexed(old_tokens.push(nv)) =~= indexed(old_tokens).push((nv, old_tokens.len() as usize)));
                        assert(indexed_ids(old_tokens.push(nv)) =~= indexed_ids(old_tokens).push((old_tokens.len() as usize, nv)));
                        assert(token_entries_view(token_to_id@) =~= indexed(old_tokens.push(pr.0 + pr.1)));
                        assert(id_entries_view(id_to_token@) =~= indexed_ids(old_tokens.push(pr.0 + pr.1)));
                    }
                    words = new_words;
                    next_id = next_id + 1;
                },
            }
        }
        let special_tokens = SpecialTokens { pad: Some(0), unk: Some(1), bos: Some(2), eos: Some(3), mask: None };
        assert(token_entries_view(token_to_id@).len() == token_to_id.len());
        BPETokenizer { token_to_id, id_to_token, merges, special_tokens }
    }
}

impl BPETokenizer {
    /// The id of token `t`, else the unknown token, else 0.
    pub open spec fn token_id(&self, t: Seq<char>) -> usize {
        match token_lookup(self.token_entries(), t) {
            Some(i) => i,
            None => match self.specials().unk {
                Some(u) => u,
                None => 0,
            },
        }
    }

    /// The ids of the tokens of `text`.
    pub open spec fn encode_spec(&self, text: Seq<char>) -> Seq<usize> {
        tokenize_spec(text, self.merge_list()).map_values(|t: Seq<char>| self.token_id(t))
    }

    /// The tokens of the known ids of `ids`, in order.
    pub open spec fn decode_tokens(&self, ids: Seq<usize>) -> Seq<Seq<char>>
        decreases ids.len(),
    {
        if ids.len() == 0 {
            seq![]
        } else {
            let r = self.decode_tokens(ids.drop_last());
            match id_lookup(self.id_entries(), ids.last()) {
                Some(t) => r.push(t),
                None => r,
            }
        }
    }

    /// The text of `ids`: the tokens of the known ids, concatenated.
    pub open spec fn decode_spec(&self, ids: Seq<usize>) -> Seq<char> {
        self.decode_tokens(ids).flatten()
    }

    /// The number of distinct tokens in the token-to-id table.
    pub open spec fn spec_vocab_size(&self) -> nat {
        dedup(self.token_entries().map_values(|e: (Seq<char>, usize)| e.0)).len()
    }

    /// The tokens of `text`: each whitespace-separated word is split into
    /// characters and the merges are applied to it in order.
    pub fn tokenize(&self, text: &str) -> (r: Vec<String>)
        ensures
            views(r@) == tokenize_spec(text@, self.merge_list()),
    {
        let chars = chars_of(text);
        let raw = split_words(&chars);
        let ghost wv = raw@.map_values(|w: Vec<char>| w@);
        let ghost m = self.merge_list();
        let ghost per_word = words_of(text@).map_values(|w: Seq<char>| apply_merges_word(char_tokens(w), m));
        let mut result: Vec<String> = Vec::new();
        let mut i: usize = 0;
        proof {
            assert(per_word.take(0) =~= Seq::<Seq<Seq<char>>>::empty());
            assert(views(result@) =~= per_word.take(0).flatten());
        }
        while i < raw.len()
            invariant
                i <= raw.len(),
                wv == raw@.map_values(|w: Vec<char>| w@),
                wv == words_of(text@),
                m == self.merge_list(),
                per_word == words_of(text@).map_values(|w: Seq<char>| apply_merges_word(char_tokens(w), m)),
                views(result@) == per_word.take(i as int).flatten(),
            decreases raw.len() - i,
        {
            let mut tokens = initial_word(&raw[i]);
            let mut k: usize = 0;
            proof {
                assert(wv[i as int] == raw@[i as int]@);
                assert(m.take(0) =~= Seq::<(Seq<char>, Seq<char>)>::empty());
            }
            while k < self.merges.len()
                invariant
                    k <= self.merges.len(),
                    m == self.merge_list(),
                    i < raw.len(),
                    views(tokens@) == apply_merges_word(char_tokens(raw@[i as int]@), m.take(k as int)),
                decreases self.merges.len() - k,
            {
                let a = &self.merges[k].0;
                let b = &self.merges[k].1;
                let mut n = a.clone();
                n.append(b.as_str());
                tokens = merge_pair(tokens.as_slice(), a.as_str(), b.as_str(), n.as_str());
                proof {
                    assert(m.take(k + 1).drop_last() =~= m.take(k as int));
                    assert(m.take(k + 1).last() == m[k as int]);
                }
                k = k + 1;
            }
            proof {
                assert(m.take(self.merges.len() as int) =~= m);
                assert(per_word[i as int] == views(tokens@));
            }
            let mut j: usize = 0;
            let ghost before = views(result@);
            while j < tokens.len()
                invariant
                    j <= tokens.len(),
                    views(result@) == before + views(tokens@).take(j as int),
                decreases tokens.len() - j,
            {
                let ghost prev = result@;
                result.push(tokens[j].clone());
                assert(views(result@) =~= views(prev).push(views(tokens@)[j as int]));
                assert(views(tokens@).take(j + 1) =~= views(tokens@).take(j as int).push(views(tokens@)[j as int]));
                j = j + 1;
            }
            proof {
                assert(views(tokens@).take(tokens.len() as int) =~= views(tokens@));
                assert(per_word.take(i + 1) =~= per_word.take(i as int).push(per_word[i as int]));
                per_word.take(i as int).lemma_flatten_push(per_word[i as int]);
            }
            i = i + 1;
        }
        proof {
            assert(per_word.take(raw.len() as int) =~= per_word);
        }
        result
    }
}

impl Tokenizer for BPETokenizer {
    /// The ids of the tokens of `text`; a token outside the vocabulary is the
    /// unknown token (or 0 without one).
    fn encode(&self, text: &str) -> (r: Vec<usize>)
        ensures
            r@ == self.encode_spec(text@),
    {
        let tokens = self.tokenize(text);
        let ghost tv = views(tokens@);
        let mut out: Vec<usize> = Vec::new();
        let mut i: usize = 0;
        while i < tokens.len()
            invariant
                i <= tokens.len(),
                tv == views(tokens@),
                tv == tokenize_spec(text@, self.merge_list()),
                out@ == tv.take(i as int).map_values(|t: Seq<char>| self.token_id(t)),
            decreases tokens.len() - i,
        {
            let id = match self.lookup_token(&tokens[i]) {
                Some(id) => id,
                None => match self.special_tokens.unk {
                    Some(u) => u,
                    None => 0,
                },
            };
            out.push(id);
            assert(tv.take(i + 1).map_values(|t: Seq<char>| self.token_id(t)) =~= tv.take(i as int).map_values(|t: Seq<char>| self.token_id(t)).push(id));
            i = i + 1;
        }
        assert(tv.take(tokens.len() as int) =~= tv);
        out
    }

    /// The tokens of the known ids, concatenated.
    fn decode(&self, ids: &[usize]) -> (r: String)
        ensures
            r@ == self.decode_spec(ids@),
    {
        let mut out: Vec<char> = Vec::new();
        let mut i: usize = 0;
        proof {
            assert(ids@.take(0) =~= Seq::<usize>::empty());
        }
        while i < ids.len()
            invariant
                i <= ids.len(),
                out@ == self.decode_tokens(ids@.take(i as int)).flatten(),
            decreases ids.len() - i,
        {
            assert(ids@.take(i + 1).drop_last() =~= ids@.take(i as int));
            let prev_tokens = Ghost(self.decode_tokens(ids@.take(i as int)));
            match self.lookup_id(ids[i]) {
                Some(t) => {
                    push_str(&mut out, t.as_str());
                    proof {
                        prev_tokens@.lemma_flatten_push(t@);
                    }
                },
                None => {},
            }
            i = i + 1;
        }
        assert(ids@.take(ids.len() as int) =~= ids@);
        string_from_chars(&out)
    }

    /// The number of distinct tokens in the token-to-id table.
    fn vocab_size(&self) -> (r: usize)
        ensures
            r == self.spec_vocab_size(),
    {
        let mut keys: Vec<String> = Vec::new();
        let mut i: usize = 0;
        while i < self.token_to_id.len()
            invariant
                i <= self.token_to_id.len(),
                views(keys@) == self.token_entries().take(i as int).map_values(|e: (Seq<char>, usize)| e.0),
            decreases self.token_to_id.len() - i,
        {
            let ghost prev = keys@;
            let k = self.token_to_id[i].0.clone();
            keys.push(k);
            assert(views(keys@) =~= views(prev).push(self.token_entries()[i as int].0));
            assert(views(keys@) =~= self.token_entries().take(i + 1).map_values(|e: (Seq<char>, usize)| e.0));
            i = i + 1;
        }
        assert(self.token_entries().take(i as int) =~= self.token_entries());
        count_distinct(&keys)
    }

    /// The special token ids.
    fn special_tokens(&self) -> (r: SpecialTokens)
        ensures
            r == self.specials(),
    {
        self.special_tokens
    }
}

impl BPETokenizer {
    /// The id of token `t`: the last matching entry of the token table.
    fn lookup_token(&self, t: &String) -> (r: Option<usize>)
        ensures
            r == token_lookup(self.token_entries(), t@),
    {
        let mut i: usize = self.token_to_id.len();
        assert(self.token_entries().take(i as int) =~= self.token_entries());
        while i > 0
            invariant
                i <= self.token_to_id.len(),
                token_lookup(self.token_entries(), t@) == token_lookup(self.token_entries().take(i as int), t@),
            decreases i,
        {
            assert(self.token_entries().take(i as int).drop_last() =~= self.token_entries().take(i - 1));
            if self.token_to_id[i - 1].0 == *t {
                return Some(self.token_to_id[i - 1].1);
            }
            i = i - 1;
        }
        None
    }

    /// The token of id `id`: the last matching entry of the id table.
    fn lookup_id(&self, id: usize) -> (r: Option<&String>)
        ensures
            r matches Some(s) ==> id_lookup(self.id_entries(), id) == Some(s@),
            r is None ==> id_lookup(self.id_entries(), id) is None,
    {
        let mut i: usize = self.id_to_token.len();
        assert(self.id_entries().take(i as int) =~= self.id_entries());
        while i > 0
            invariant
                i <= self.id_to_token.len(),
                id_lookup(self.id_entries(), id) == id_lookup(self.id_entries().take(i as int), id),
            decreases i,
        {
            assert(self.id_entries().take(i as int).drop_last() =~= self.id_entries().take(i - 1));
            if self.id_to_token[i - 1].0 == id {
                return Some(&self.id_to_token[i - 1].1);
            }
            i = i - 1;
        }
        None
    }
}

/// The token strings of a list of token/id entries.
pub open spec fn entry_tokens(e: Seq<(Seq<char>, usize)>) -> Seq<Seq<char>> {
    e.map_values(|x: (Seq<char>, usize)| x.0)
}

/// Token/id entries swapped into id/token entries.
pub open spec fn swap_entries(e: Seq<(Seq<char>, usize)>) -> Seq<(usize, Seq<char>)> {
    e.map_values(|x: (Seq<char>, usize)| (x.1, x.0))
}

impl BPETokenizer {
    /// The tokenizer of a given vocabulary (each token with its id, every
    /// token once) and merge rules, with no special tokens.
    pub fn from_vocab_and_merges(vocab: Vec<(String, usize)>, merges: Vec<(String, String)>) -> (t: Self)
        requires
            entry_tokens(token_entries_view(vocab@)).no_duplicates(),
        ensures
            t.token_entries() == token_entries_view(vocab@),
            t.id_entries() == swap_entries(token_entries_view(vocab@)),
            t.merge_list() == pairs_view(merges@),
            t.specials() == (SpecialTokens { pad: None, bos: None, eos: None, unk: None, mask: None }),
    {
        let mut id_to_token: Vec<(usize, String)> = Vec::new();
        let mut i: usize = 0;
        while i < vocab.len()
            invariant
                i <= vocab.len(),
                id_entries_view(id_to_token@) == swap_entries(token_entries_view(vocab@).take(i as int)),
            decreases vocab.len() - i,
        {
            let ghost prev = id_to_token@;
            let tok = vocab[i].0.clone();
            let ghost e = (vocab@[i as int].1, vocab@[i as int].0@);
            id_to_token.push((vocab[i].1, tok));
            assert(id_entries_view(id_to_token@) =~= id_entries_view(prev).push(e));
            assert(swap_entries(token_entries_view(vocab@).take(i + 1)) =~= swap_entries(token_entries_view(vocab@).take(i as int)).push(e));
            assert(id_entries_view(id_to_token@) =~= swap_entries(token_entries_view(vocab@).take(i + 1)));
            i = i + 1;
        }
        assert(token_entries_view(vocab@).take(vocab.len() as int) =~= token_entries_view(vocab@));
        BPETokenizer {
            token_to_id: vocab,
            id_to_token,
            merges,
            special_tokens: SpecialTokens::default(),
        }
    }

    /// A tokenizer made of the given tables, merge rules and special tokens
    /// (as a stored tokenizer holds them).
    pub fn from_parts(
        token_to_id: Vec<(String, usize)>,
        id_to_token: Vec<(usize, String)>,
        merges: Vec<(String, String)>,
        special_tokens: SpecialTokens,
    ) -> (t: Self)
        ensures
            t.token_entries() == token_entries_view(token_to_id@),
            t.id_entries() == id_entries_view(id_to_token@),
            t.merge_list() == pairs_view(merges@),
            t.specials() == special_tokens,
    {
        BPETokenizer { token_to_id, id_to_token, merges, special_tokens }
    }

    /// The token-to-id table.
    pub fn token_table(&self) -> (r: &Vec<(String, usize)>)
        ensures
            token_entries_view(r@) == self.token_entries(),
    {
        &self.token_to_id
    }

    /// The id-to-token table.
    pub fn id_table(&self) -> (r: &Vec<(usize, String)>)
        ensures
            id_entries_view(r@) == self.id_entries(),
    {
        &self.id_to_token
    }

    /// The merge rules, in order.
    pub fn merges(&self) -> (r: &Vec<(String, String)>)
        ensures
            pairs_view(r@) == self.merge_list(),
    {
        &self.merges
    }

    /// Sets the special tokens to the ids of `<pad>`, `<unk>`, `<bos>`,
    /// `<eos>` and `<mask>` in the token table (none where absent), as a
    /// loaded tokenizer recovers them.
    pub fn restore_special_tokens(&mut self)
        ensures
            final(self).token_entries() == old(self).token_entries(),
            final(self).id_entries() == old(self).id_entries(),
            final(self).merge_list() == old(self).merge_list(),
            final(self).specials() == (SpecialTokens {
                pad: token_lookup(old(self).token_entries(), "<pad>"@),
                unk: token_lookup(old(self).token_entries(), "<unk>"@),
                bos: token_lookup(old(self).token_entries(), "<bos>"@),
                eos: token_lookup(old(self).token_entries(), "<eos>"@),
                mask: token_lookup(old(self).token_entries(), "<mask>"@),
            }),
    {
        let pad = self.lookup_token(&"<pad>".to_string());
        let unk = self.lookup_token(&"<unk>".to_string());
        let bos = self.lookup_token(&"<bos>".to_string());
        let eos = self.lookup_token(&"<eos>".to_string());
        let mask = self.lookup_token(&"<mask>".to_string());
        self.special_tokens = SpecialTokens { pad, unk, bos, eos, mask };
    }
}

/// Merging a pair into its concatenation keeps the text of a word: the
/// tokens after `merge_pair` spell the same characters as before.
pub proof fn lemma_merge_keeps_text(t: Seq<Seq<char>>, a: Seq<char>, b: Seq<char>)
    ensures
        merged(t, a, b, a + b).flatten() == t.flatten(),
{
    lemma_merge_from_flatten(t, a, b, 0);
    assert(t.skip(0) =~= t);
}

proof fn lemma_apply_merges_word_text(t: Seq<Seq<char>>, m: Seq<(Seq<char>, Seq<char>)>)
    ensures
        apply_merges_word(t, m).flatten() == t.flatten(),
    decreases m.len(),
{
    if m.len() > 0 {
        lemma_apply_merges_word_text(t, m.drop_last());
        lemma_merge_keeps_text(apply_merges_word(t, m.drop_last()), m.last().0, m.last().1);
    }
}

proof fn lemma_char_tokens_text(w: Seq<char>)
    ensures
        char_tokens(w).flatten() == w,
    decreases w.len(),
{
    if w.len() > 0 {
        lemma_char_tokens_text(w.drop_last());
        assert(char_tokens(w) =~= char_tokens(w.drop_last()).push(seq![w.last()]));
        char_tokens(w.drop_last()).lemma_flatten_push(seq![w.last()]);
        assert(w =~= w.drop_last() + seq![w.last()]);
    }
}

proof fn lemma_flatten_flatten(x: Seq<Seq<Seq<char>>>)
    ensures
        x.flatten().flatten() == x.map_values(|y: Seq<Seq<char>>| y.flatten()).flatten(),
    decreases x.len(),
{
    if x.len() > 0 {
        let p = x.drop_last();
        let l = x.last();
        lemma_flatten_flatten(p);
        assert(x =~= p.push(l));
        p.lemma_flatten_push(l);
        vstd::seq_lib::lemma_flatten_concat(p.flatten(), l);
        assert(x.map_values(|y: Seq<Seq<char>>| y.flatten()) =~= p.map_values(|y: Seq<Seq<char>>| y.flatten()).push(l.flatten()));
        p.map_values(|y: Seq<Seq<char>>| y.flatten()).lemma_flatten_push(l.flatten());
    }
}

/// The tokens of a text spell the text without its whitespace.
pub proof fn lemma_tokenize_text(s: Seq<char>, m: Seq<(Seq<char>, Seq<char>)>)
    ensures
        tokenize_spec(s, m).flatten() == words_of(s).flatten(),
{
    let ws = words_of(s);
    let x = ws.map_values(|w: Seq<char>| apply_merges_word(char_tokens(w), m));
    lemma_flatten_flatten(x);
    let fx = x.map_values(|y: Seq<Seq<char>>| y.flatten());
    assert forall|i: int| 0 <= i < ws.len() implies #[trigger] fx[i] == ws[i] by {
        lemma_apply_merges_word_text(char_tokens(ws[i]), m);
        lemma_char_tokens_text(ws[i]);
    }
    assert(fx =~= ws);
}

proof fn lemma_merge_from_nonempty(t: Seq<Seq<char>>, a: Seq<char>, b: Seq<char>, i: int)
    requires
        0 <= i <= t.len(),
        forall|k: int| 0 <= k < t.len() ==> (#[trigger] t[k]).len() > 0,
    ensures
        forall|k: int|
            0 <= k < merge_from(t, a, b, a + b, i).len() ==> (#[trigger] merge_from(t, a, b, a + b, i)[k]).len() > 0,
    decreases t.len() - i,
{
    if i < t.len() {
        let r = merge_from(t, a, b, a + b, i);
        let next = if i + 1 < t.len() && t[i] == a && t[i + 1] == b { i + 2 } else { i + 1 };
        lemma_merge_from_nonempty(t, a, b, next);
        let rest = merge_from(t, a, b, a + b, next);
        assert(t[i].len() > 0);
        assert forall|k: int| 0 <= k < r.len() implies (#[trigger] r[k]).len() > 0 by {
            if k > 0 {
                assert(r[k] == rest[k - 1]);
            }
        }
    }
}

proof fn lemma_apply_merges_word_nonempty(t: Seq<Seq<char>>, m: Seq<(Seq<char>, Seq<char>)>)
    requires
        forall|k: int| 0 <= k < t.len() ==> (#[trigger] t[k]).len() > 0,
    ensures
        forall|k: int| 0 <= k < apply_merges_word(t, m).len() ==> (#[trigger] apply_merges_word(t, m)[k]).len() > 0,
    decreases m.len(),
{
    if m.len() > 0 {
        lemma_apply_merges_word_nonempty(t, m.drop_last());
        lemma_merge_from_nonempty(apply_merges_word(t, m.drop_last()), m.last().0, m.last().1, 0);
    }
}

/// Tokenizing a text is tokenizing each of its words: no token spans two
/// words or holds whitespace, and every token is non-empty.
pub proof fn lemma_tokenize_words(s: Seq<char>, m: Seq<(Seq<char>, Seq<char>)>)
    ensures
        tokenize_spec(s, m) == words_of(s).map_values(|w: Seq<char>| tokenize_spec(w, m)).flatten(),
        forall|k: int| 0 <= k < tokenize_spec(s, m).len() ==> (#[trigger] tokenize_spec(s, m)[k]).len() > 0,
{
    let ws = words_of(s);
    let x = ws.map_values(|w: Seq<char>| apply_merges_word(char_tokens(w), m));
    lemma_words_of_chars(s);
    lemma_words_nonempty(s);
    assert forall|i: int| 0 <= i < ws.len() implies #[trigger] tokenize_spec(ws[i], m) == x[i] by {
        let w = ws[i];
        assert forall|j: int| 0 <= j < w.len() implies !is_ws(#[trigger] w[j]) by {
            assert(!is_ws(words_of(s)[i][j]));
        }
        lemma_words_of_one_word(w);
        let y = words_of(w).map_values(|v: Seq<char>| apply_merges_word(char_tokens(v), m));
        assert(y =~= seq![x[i]]);
        seq![x[i]].lemma_flatten_one_element();
    }
    assert(ws.map_values(|w: Seq<char>| tokenize_spec(w, m)) =~= x);
    assert forall|k: int| 0 <= k < tokenize_spec(s, m).len() implies (#[trigger] tokenize_spec(s, m)[k]).len() > 0 by {
        lemma_flatten_member(x, k);
        let (i, j) = choose|i: int, j: int| 0 <= i < x.len() && 0 <= j < x[i].len() && #[trigger] x[i][j] == x.flatten()[k];
        let ct = char_tokens(ws[i]);
        assert forall|q: int| 0 <= q < ct.len() implies (#[trigger] ct[q]).len() > 0 by {
            assert(ct[q] == seq![ws[i][q]]);
        }
        lemma_apply_merges_word_nonempty(ct, m);
    }
}

/// A token of a word after merges is one of its characters or the token of
/// one of the merges.
pub open spec fn merge_or_char(tok: Seq<char>, w: Seq<char>, m: Seq<(Seq<char>, Seq<char>)>) -> bool {
    ||| exists|j: int| 0 <= j < w.len() && tok == seq![w[j]]
    ||| exists|i: int| 0 <= i < m.len() && tok == m[i].0 + m[i].1
}

proof fn lemma_apply_merges_word_tokens(w: Seq<char>, m: Seq<(Seq<char>, Seq<char>)>)
    ensures
        forall|k: int|
            0 <= k < apply_merges_word(char_tokens(w), m).len() ==> merge_or_char(
                #[trigger] apply_merges_word(char_tokens(w), m)[k],
                w,
                m,
            ),
    decreases m.len(),
{
    let r = apply_merges_word(char_tokens(w), m);
    if m.len() == 0 {
        assert forall|k: int| 0 <= k < r.len() implies merge_or_char(#[trigger] r[k], w, m) by {
            assert(r[k] == seq![w[k]]);
        }
    } else {
        let pm = m.drop_last();
        let prev = apply_merges_word(char_tokens(w), pm);
        lemma_apply_merges_word_tokens(w, pm);
        let p = m.last();
        lemma_merge_from_tokens(prev, p.0, p.1, p.0 + p.1, 0);
        assert forall|k: int| 0 <= k < r.len() implies merge_or_char(#[trigger] r[k], w, m) by {
            if r[k] == p.0 + p.1 {
                assert(m[m.len() - 1] == p);
            } else {
                assert(prev.contains(r[k]));
                let k2 = choose|k2: int| 0 <= k2 < prev.len() && prev[k2] == r[k];
                assert(merge_or_char(prev[k2], w, pm));
                if exists|i: int| 0 <= i < pm.len() && prev[k2] == pm[i].0 + pm[i].1 {
                    let i = choose|i: int| 0 <= i < pm.len() && prev[k2] == pm[i].0 + pm[i].1;
                    assert(m[i] == pm[i]);
                }
            }
        }
    }
}

proof fn lemma_split_state_chars(s: Seq<char>)
    ensures
        forall|i: int, j: int|
            0 <= i < split_state(s).0.len() && 0 <= j < split_state(s).0[i].len() ==> !is_ws(
                #[trigger] split_state(s).0[i][j],
            ) && s.contains(split_state(s).0[i][j]),
        forall|j: int|
            0 <= j < split_state(s).1.len() ==> !is_ws(#[trigger] split_state(s).1[j]) && s.contains(
                split_state(s).1[j],
            ),
    decreases s.len(),
{
    if s.len() > 0 {
        let p = s.drop_last();
        lemma_split_state_chars(p);
        let (ws, cur) = split_state(p);
        assert forall|c: char| p.contains(c) implies s.contains(c) by {
            let k = choose|k: int| 0 <= k < p.len() && p[k] == c;
            assert(s[k] == c);
        }
        assert(s[s.len() - 1] == s.last());
        if !is_ws(s.last()) {
            assert forall|j: int| 0 <= j < cur.push(s.last()).len() implies !is_ws(#[trigger] cur.push(s.last())[j])
                && s.contains(cur.push(s.last())[j]) by {
                if j < cur.len() {
                    assert(cur.push(s.last())[j] == cur[j]);
                }
            }
        } else if cur.len() > 0 {
            assert forall|i: int, j: int|
                0 <= i < ws.push(cur).len() && 0 <= j < ws.push(cur)[i].len() implies !is_ws(
                    #[trigger] ws.push(cur)[i][j],
                ) && s.contains(ws.push(cur)[i][j]) by {
                if i < ws.len() {
                    assert(ws.push(cur)[i] == ws[i]);
                } else {
                    assert(ws.push(cur)[i] == cur);
                }
            }
        }
    }
}

proof fn lemma_words_of_chars(s: Seq<char>)
    ensures
        forall|i: int, j: int|
            0 <= i < words_of(s).len() && 0 <= j < words_of(s)[i].len() ==> !is_ws(
                #[trigger] words_of(s)[i][j],
            ) && s.contains(words_of(s)[i][j]),
{
    lemma_split_state_chars(s);
    let (ws, cur) = split_state(s);
    if cur.len() > 0 {
        assert forall|i: int, j: int|
            0 <= i < words_of(s).len() && 0 <= j < words_of(s)[i].len() implies !is_ws(
                #[trigger] words_of(s)[i][j],
            ) && s.contains(words_of(s)[i][j]) by {
            if i < ws.len() {
                assert(words_of(s)[i] == ws[i]);
            } else {
                assert(words_of(s)[i] == cur);
            }
        }
    }
}

proof fn lemma_flatten_member(x: Seq<Seq<Seq<char>>>, k: int)
    requires
        0 <= k < x.flatten().len(),
    ensures
        exists|i: int, j: int| 0 <= i < x.len() && 0 <= j < x[i].len() && #[trigger] x[i][j] == x.flatten()[k],
    decreases x.len(),
{
    if x.len() > 0 {
        let p = x.drop_last();
        let l = x.last();
        assert(x =~= p.push(l));
        p.lemma_flatten_push(l);
        if k < p.flatten().len() {
            lemma_flatten_member(p, k);
            let (i, j) = choose|i: int, j: int| 0 <= i < p.len() && 0 <= j < p[i].len() && #[trigger] p[i][j] == p.flatten()[k];
            assert(x[i] == p[i]);
        } else {
            let j = k - p.flatten().len();
            assert(x[x.len() - 1][j] == x.flatten()[k]);
        }
    } else {
        assert(x.flatten().len() == 0);
    }
}

/// Every token of a text is a character of the text (not whitespace) or the
/// token of a merge.
proof fn lemma_tokenize_tokens(s: Seq<char>, m: Seq<(Seq<char>, Seq<char>)>)
    ensures
        forall|k: int| 0 <= k < tokenize_spec(s, m).len() ==> {
            let tok = #[trigger] tokenize_spec(s, m)[k];
            ||| exists|c: char| !is_ws(c) && s.contains(c) && tok == seq![c]
            ||| exists|i: int| 0 <= i < m.len() && tok == m[i].0 + m[i].1
        },
{
    let ws = words_of(s);
    let x = ws.map_values(|w: Seq<char>| apply_merges_word(char_tokens(w), m));
    lemma_words_of_chars(s);
    assert forall|k: int| 0 <= k < tokenize_spec(s, m).len() implies {
        let tok = #[trigger] tokenize_spec(s, m)[k];
        ||| exists|c: char| !is_ws(c) && s.contains(c) && tok == seq![c]
        ||| exists|i: int| 0 <= i < m.len() && tok == m[i].0 + m[i].1
    } by {
        lemma_flatten_member(x, k);
        let (i, j) = choose|i: int, j: int| 0 <= i < x.len() && 0 <= j < x[i].len() && #[trigger] x[i][j] == x.flatten()[k];
        lemma_apply_merges_word_tokens(ws[i], m);
        assert(merge_or_char(x[i][j], ws[i], m));
        if exists|jj: int| 0 <= jj < ws[i].len() && x[i][j] == seq![ws[i][jj]] {
            let jj = choose|jj: int| 0 <= jj < ws[i].len() && x[i][j] == seq![ws[i][jj]];
            let c = ws[i][jj];
            assert(!is_ws(c) && s.contains(c));
        }
    }
}

proof fn lemma_token_lookup_indexed(t: Seq<Seq<char>>, tok: Seq<char>)
    requires
        t.contains(tok),
        t.len() <= usize::MAX + 1,
    ensures
        token_lookup(indexed(t), tok) matches Some(k) && k < t.len() && t[k as int] == tok,
        forall|j: int| 0 <= j < t.len() && t[j] == tok ==> j <= token_lookup(indexed(t), tok)->0,
    decreases t.len(),
{
    let p = t.drop_last();
    assert(indexed(t).drop_last() =~= indexed(p));
    if t.last() != tok {
        let k = choose|k: int| 0 <= k < t.len() && t[k] == tok;
        assert(p[k] == tok);
        lemma_token_lookup_indexed(p, tok);
        assert forall|j: int| 0 <= j < t.len() && t[j] == tok implies j <= token_lookup(indexed(t), tok)->0 by {
            assert(j != t.len() - 1);
            assert(p[j] == t[j]);
        }
    }
}

proof fn lemma_id_lookup_indexed(t: Seq<Seq<char>>, k: int)
    requires
        0 <= k < t.len(),
        t.len() <= usize::MAX + 1,
    ensures
        id_lookup(indexed_ids(t), k as usize) == Some(t[k]),
    decreases t.len(),
{
    let p = t.drop_last();
    assert(indexed_ids(t).drop_last() =~= indexed_ids(p));
    if k < t.len() - 1 {
        lemma_id_lookup_indexed(p, k);
    }
}

/// A tokenizer whose tables index the vocabulary `vt` by position decodes the
/// ids of tokens of `vt` back to those tokens.
proof fn lemma_decode_encoded_tokens(t: BPETokenizer, vt: Seq<Seq<char>>, toks: Seq<Seq<char>>)
    requires
        t.token_entries() == indexed(vt),
        t.id_entries() == indexed_ids(vt),
        vt.len() <= usize::MAX,
        forall|k: int| 0 <= k < toks.len() ==> vt.contains(#[trigger] toks[k]),
    ensures
        t.decode_tokens(toks.map_values(|x: Seq<char>| t.token_id(x))) == toks,
    decreases toks.len(),
{
    if toks.len() > 0 {
        let p = toks.drop_last();
        assert forall|k: int| 0 <= k < p.len() implies vt.contains(#[trigger] p[k]) by {
            assert(p[k] == toks[k]);
        }
        lemma_decode_encoded_tokens(t, vt, p);
        let ids = toks.map_values(|x: Seq<char>| t.token_id(x));
        assert(ids.drop_last() =~= p.map_values(|x: Seq<char>| t.token_id(x)));
        let last = toks.last();
        assert(vt.contains(toks[toks.len() - 1]));
        lemma_token_lookup_indexed(vt, last);
        let k = token_lookup(indexed(vt), last)->0;
        lemma_id_lookup_indexed(vt, k as int);
        assert(toks =~= p.push(last));
    }
}

/// A tokenizer trained on `text` gives back every text `s` whose
/// non-whitespace characters occur in `text`: decoding the encoding of `s`
/// yields the words of `s` run together (the text without its whitespace).
/// No id of such an encoding is one of the special ids 0 to 3 (`<pad>`,
/// `<unk>`, `<bos>`, `<eos>`), so none is the unknown token. Every premise
/// on `t` is part of what `train(text, _)` ensures.
pub proof fn lemma_bpe_roundtrip(t: BPETokenizer, text: Seq<char>, s: Seq<char>)
    requires
        t.token_entries() == indexed(trained_tokens(text, t.merge_list())),
        t.id_entries() == indexed_ids(trained_tokens(text, t.merge_list())),
        trained_tokens(text, t.merge_list()).len() <= usize::MAX,
        forall|i: int| 0 <= i < s.len() && !is_ws(#[trigger] s[i]) ==> text.contains(s[i]),
    ensures
        t.decode_spec(t.encode_spec(s)) == words_of(s).flatten(),
        forall|k: int| 0 <= k < t.encode_spec(s).len() ==> 4 <= #[trigger] t.encode_spec(s)[k]
            < trained_tokens(text, t.merge_list()).len(),
{
    let m = t.merge_list();
    let vt = trained_tokens(text, m);
    let toks = tokenize_spec(s, m);
    lemma_tokenize_tokens(s, m);
    lemma_dedup(text);
    assert forall|k: int| 0 <= k < toks.len() implies exists|j: int|
        4 <= j < vt.len() && #[trigger] vt[j] == #[trigger] toks[k] by {
        let tok = toks[k];
        if exists|c: char| !is_ws(c) && s.contains(c) && tok == seq![c] {
            let c = choose|c: char| !is_ws(c) && s.contains(c) && tok == seq![c];
            let j = choose|j: int| 0 <= j < s.len() && s[j] == c;
            assert(text.contains(s[j]));
            assert(dedup(text).contains(c));
            let d = choose|d: int| 0 <= d < dedup(text).len() && dedup(text)[d] == c;
            assert(vt[4 + d] == tok);
        } else {
            let i = choose|i: int| 0 <= i < m.len() && tok == m[i].0 + m[i].1;
            assert(vt[4 + dedup(text).len() + i] == tok);
        }
    }
    assert forall|k: int| 0 <= k < toks.len() implies vt.contains(#[trigger] toks[k]) by {
        let j = choose|j: int| 4 <= j < vt.len() && #[trigger] vt[j] == toks[k];
    }
    assert forall|k: int| 0 <= k < t.encode_spec(s).len() implies 4 <= #[trigger] t.encode_spec(s)[k]
        < vt.len() by {
        let j = choose|j: int| 4 <= j < vt.len() && #[trigger] vt[j] == toks[k];
        lemma_token_lookup_indexed(vt, toks[k]);
        assert(t.encode_spec(s)[k] == t.token_id(toks[k]));
    }
    lemma_decode_encoded_tokens(t, vt, toks);
    lemma_tokenize_text(s, m);
}

/// A trained tokenizer holds at most `vocab_size` distinct tokens when the
/// special tokens and the characters of its text fit in `vocab_size`.
pub proof fn lemma_trained_vocab_size(t: BPETokenizer, text: Seq<char>, vocab_size: nat)
    requires
        t.token_entries() == indexed(trained_tokens(text, t.merge_list())),
        4 + dedup(text).len() <= vocab_size,
        4 + dedup(text).len() + t.merge_list().len() <= vocab_size || t.merge_list().len() == 0,
    ensures
        t.spec_vocab_size() <= vocab_size,
{
    let vt = trained_tokens(text, t.merge_list());
    assert(t.token_entries().map_values(|e: (Seq<char>, usize)| e.0) =~= vt);
    lemma_dedup(vt);
}

} // verus!
