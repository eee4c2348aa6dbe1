//! Character-level and word-level tokenizers.
use vstd::prelude::*;
use std::collections::HashMap;
use crate::text::{chars_of, dedup, lemma_dedup, lemma_dedup_first, push_str, split_words, string_from_chars, words_of};
use super::{SpecialTokens, Tokenizer};

verus! {

broadcast use vstd::std_specs::hash::group_hash_axioms;

/// A character-level tokenizer: every character is one token.
///
/// Characters are looked up by their scalar value.
#[derive(Clone)]
pub struct CharTokenizer {
    char_to_id: HashMap<u32, usize>,
    id_to_char: HashMap<usize, char>,
    vocab_size: usize,
    special_tokens: SpecialTokens,
}

/// The character table of `CharTokenizer::new`: every ASCII character is its
/// own id, except NUL, which is the padding token 128.
pub open spec fn ascii_char_ids() -> Map<u32, usize> {
    Map::new(|k: u32| k < 128, |k: u32| if k == 0 { 128usize } else { k as usize })
}

/// The id table of `CharTokenizer::new`: ids below 128 are their ASCII
/// character, and 128 is NUL.
pub open spec fn ascii_id_chars() -> Map<usize, char> {
    Map::new(|i: usize| i <= 128, |i: usize| if i == 128 { '\0' } else { i as char })
}

/// Ids of the characters of `d` by position: the character `d[i]` gets id `i`
/// (a later repetition overrides an earlier one).
pub open spec fn char_id_map(d: Seq<char>) -> Map<u32, usize>
    decreases d.len(),
{
    if d.len() == 0 {
        Map::empty()
    } else {
        char_id_map(d.drop_last()).insert(d.last() as u32, (d.len() - 1) as usize)
    }
}

/// The character of each position of `d`.
pub open spec fn id_char_map(d: Seq<char>) -> Map<usize, char> {
    Map::new(|i: usize| i < d.len(), |i: usize| d[i as int])
}

/// The alphabet that `CharTokenizer::from_text` builds from `text`: NUL first,
/// then each character of `text` at its first occurrence.
pub open spec fn text_alphabet(text: Seq<char>) -> Seq<char> {
    dedup(seq!['\0'] + text)
}

/// The ASCII characters of `s`, in order.
pub open spec fn ascii_only(s: Seq<char>) -> Seq<char> {
    s.filter(|c: char| (c as u32) < 128)
}

/// A character's scalar value is exact as a `u32`, so distinct characters
/// have distinct codes.
proof fn lemma_char_code(a: char, b: char)
    ensures
        (a as u32) as int == a as int,
        (a as u32 == b as u32) == (a == b),
{
}

proof fn lemma_char_id_map(d: Seq<char>)
    requires
        d.no_duplicates(),
        d.len() <= usize::MAX,
    ensures
        forall|k: u32| #[trigger]
            char_id_map(d).contains_key(k) <==> exists|j: int| 0 <= j < d.len() && d[j] as u32 == k,
        forall|j: int| 0 <= j < d.len() ==> #[trigger] char_id_map(d)[d[j] as u32] == j,
    decreases d.len(),
{
    if d.len() > 0 {
        let p = d.drop_last();
        let last = d.last();
        assert(p.no_duplicates());
        lemma_char_id_map(p);
        assert forall|k: u32| #[trigger]
            char_id_map(d).contains_key(k) <==> exists|j: int| 0 <= j < d.len() && d[j] as u32 == k by {
            if char_id_map(d).contains_key(k) {
                if k == last as u32 {
                    assert(d.last() == d[d.len() - 1]);
                    assert(d[d.len() - 1] as u32 == k);
                } else {
                    assert(char_id_map(p).contains_key(k));
                    let j = choose|j: int| 0 <= j < p.len() && p[j] as u32 == k;
                    assert(p[j] == d[j]);
                    assert(d[j] as u32 == k);
                }
            }
            if exists|j: int| 0 <= j < d.len() && d[j] as u32 == k {
                let j = choose|j: int| 0 <= j < d.len() && d[j] as u32 == k;
                if j < d.len() - 1 {
                    assert(p[j] == d[j]);
                    assert(char_id_map(p).contains_key(k));
                }
            }
        }
        assert forall|j: int| 0 <= j < d.len() implies #[trigger] char_id_map(d)[d[j] as u32] == j by {
            if j < d.len() - 1 {
                assert(d[j] != d[d.len() - 1]);
                lemma_char_code(d[j], last);
                assert(p[j] == d[j]);
                assert(char_id_map(p)[p[j] as u32] == j);
            }
        }
    }
}

impl CharTokenizer {
    /// The id of each known character, keyed by its scalar value.
    pub closed spec fn char_ids(&self) -> Map<u32, usize> {
        self.char_to_id@
    }

    /// The character of each known id.
    pub closed spec fn id_chars(&self) -> Map<usize, char> {
        self.id_to_char@
    }

    /// The vocabulary size that `vocab_size` reports.
    pub closed spec fn spec_vocab_size(&self) -> usize {
        self.vocab_size
    }

    /// The special token ids.
    pub closed spec fn specials(&self) -> SpecialTokens {
        self.special_tokens
    }

    /// The two tables agree: a known character's id maps back to it.
    pub open spec fn wf(&self) -> bool {
        forall|k: u32| #[trigger]
            self.char_ids().contains_key(k) ==> self.id_chars().contains_key(self.char_ids()[k])
                && self.id_chars()[self.char_ids()[k]] as u32 == k
    }

    /// The id of `c`: its table entry, else the unknown token, else 0.
    pub open spec fn encode_char(&self, c: char) -> usize {
        if self.char_ids().contains_key(c as u32) {
            self.char_ids()[c as u32]
        } else {
            match self.specials().unk {
                Some(u) => u,
                None => 0,
            }
        }
    }

    /// The ids of the characters of `s`, one per character.
    pub open spec fn encode_spec(&self, s: Seq<char>) -> Seq<usize> {
        s.map_values(|c: char| self.encode_char(c))
    }

    /// The characters of the known ids of `ids`, in order; unknown ids are
    /// skipped.
    pub open spec fn decode_spec(&self, ids: Seq<usize>) -> Seq<char>
        decreases ids.len(),
    {
        if ids.len() == 0 {
            seq![]
        } else {
            let r = self.decode_spec(ids.drop_last());
            if self.id_chars().contains_key(ids.last()) {
                r.push(self.id_chars()[ids.last()])
            } else {
                r
            }
        }
    }

    /// The ASCII tokenizer: characters 0..=127 are their own ids, NUL is also
    /// the padding token 128, and ids 129, 130, 131 are BOS, EOS and UNK.
    pub fn new() -> (t: Self)
        ensures
            t.char_ids() == ascii_char_ids(),
            t.id_chars() == ascii_id_chars(),
            t.spec_vocab_size() == 256,
            t.specials() == (SpecialTokens {
                pad: Some(128),
                bos: Some(129),
                eos: Some(130),
                unk: Some(131),
                mask: None,
            }),
            t.wf(),
    {
        let mut char_to_id: HashMap<u32, usize> = HashMap::new();
        let mut id_to_char: HashMap<usize, char> = HashMap::new();
        let mut i: u8 = 0;
        while i < 128
            invariant
                i <= 128,
                char_to_id@ == Map::new(|k: u32| k < i, |k: u32| k as usize),
                id_to_char@ == Map::new(|j: usize| j < i, |j: usize| j as char),
            decreases 128 - i,
        {
            let c = i as char;
            char_to_id.insert(c as u32, i as usize);
            id_to_char.insert(i as usize, c);
            assert(char_to_id@ =~= Map::new(|k: u32| k < i + 1, |k: u32| k as usize));
            assert(id_to_char@ =~= Map::new(|j: usize| j < i + 1, |j: usize| j as char));
            i = i + 1;
        }
        char_to_id.insert('\0' as u32, 128);
        id_to_char.insert(128, '\0');
        assert(char_to_id@ =~= ascii_char_ids());
        assert(id_to_char@ =~= ascii_id_chars());
        let special_tokens = SpecialTokens {
            pad: Some(128),
            bos: Some(129),
            eos: Some(130),
            unk: Some(131),
            mask: None,
        };
        CharTokenizer { char_to_id, id_to_char, vocab_size: 256, special_tokens }
    }

    /// The tokenizer of the characters of `text`: NUL is id 0 (padding), and
    /// each further character gets the next id at its first occurrence.
    pub fn from_text(text: &str) -> (t: Self)
        requires
            text@.len() < usize::MAX,
        ensures
            t.char_ids() == char_id_map(text_alphabet(text@)),
            t.id_chars() == id_char_map(text_alphabet(text@)),
            t.spec_vocab_size() == text_alphabet(text@).len(),
            t.specials() == (SpecialTokens {
                pad: Some(0),
                bos: None,
                eos: None,
                unk: None,
                mask: None,
            }),
            t.wf(),
    {
        let chars = chars_of(text);
        let ghost full = seq!['\0'] + text@;
        let mut char_to_id: HashMap<u32, usize> = HashMap::new();
        let mut id_to_char: HashMap<usize, char> = HashMap::new();
        char_to_id.insert('\0' as u32, 0);
        id_to_char.insert(0, '\0');
        let mut next_id: usize = 1;
        proof {
            reveal_with_fuel(dedup, 2);
            reveal_with_fuel(char_id_map, 2);
            assert(full.take(1) =~= seq!['\0']);
            assert(full.take(1).drop_last() =~= Seq::<char>::empty());
            assert(char_to_id@ =~= char_id_map(dedup(full.take(1))));
            assert(id_to_char@ =~= id_char_map(dedup(full.take(1))));
        }
        let mut i: usize = 0;
        while i < chars.len()
            invariant
                i <= chars.len(),
                chars@ == text@,
                full == seq!['\0'] + text@,
                text@.len() < usize::MAX,
                next_id == dedup(full.take(i + 1)).len(),
                next_id <= i + 1,
                char_to_id@ == char_id_map(dedup(full.take(i + 1))),
                id_to_char@ == id_char_map(dedup(full.take(i + 1))),
            decreases chars.len() - i,
        {
            let c = chars[i];
            let ghost d = dedup(full.take(i + 1));
            proof {
                lemma_dedup(full.take(i + 1));
                lemma_char_id_map(d);
                assert(full.take(i + 2).drop_last() =~= full.take(i + 1));
                assert(full.take(i + 2).last() == c);
            }
            if !char_to_id.contains_key(&(c as u32)) {
                proof {
                    if d.contains(c) {
                        let j = choose|j: int| 0 <= j < d.len() && d[j] == c;
                        assert(char_id_map(d).contains_key(d[j] as u32));
                    }
                }
                char_to_id.insert(c as u32, next_id);
                id_to_char.insert(next_id, c);
                proof {
                    assert(!d.contains(c));
                    assert(dedup(full.take(i + 2)) == d.push(c));
                    assert(d.push(c).drop_last() =~= d);
                    assert(d.push(c).last() == c);
                }
                next_id = next_id + 1;
                assert(id_to_char@ =~= id_char_map(dedup(full.take(i + 2))));
            } else {
                proof {
                    let j = choose|j: int| 0 <= j < d.len() && d[j] as u32 == c as u32;
                    lemma_char_code(d[j], c);
                    assert(d[j] == c);
                    assert(d.contains(c));
                    assert(dedup(full.take(i + 2)) == d);
                }
            }
            i = i + 1;
        }
        let ghost d = dedup(full.take(i + 1));
        proof {
            assert(full.take(i + 1) =~= full);
            lemma_dedup(full);
            lemma_char_id_map(d);
            assert forall|k: u32| #[trigger] char_id_map(d).contains_key(k) implies
                id_char_map(d).contains_key(char_id_map(d)[k]) && id_char_map(d)[char_id_map(d)[k]] as u32 == k by {
                let j = choose|j: int| 0 <= j < d.len() && d[j] as u32 == k;
            }
        }
        let special_tokens = SpecialTokens { pad: Some(0), bos: None, eos: None, unk: None, mask: None };
        CharTokenizer { vocab_size: next_id, char_to_id, id_to_char, special_tokens }
    }
}

/// Decoding the encoding of a text gives the text back whenever every
/// character of the text is in the tokenizer's table.
pub proof fn lemma_char_roundtrip(t: CharTokenizer, s: Seq<char>)
    requires
        t.wf(),
        forall|i: int| 0 <= i < s.len() ==> t.char_ids().contains_key(#[trigger] s[i] as u32),
    ensures
        t.decode_spec(t.encode_spec(s)) == s,
    decreases s.len(),
{
    if s.len() > 0 {
        let p = s.drop_last();
        assert forall|i: int| 0 <= i < p.len() implies t.char_ids().contains_key(#[trigger] p[i] as u32) by {
            assert(p[i] == s[i]);
        }
        lemma_char_roundtrip(t, p);
        let e = t.encode_spec(s);
        assert(e.drop_last() =~= t.encode_spec(p));
        let c = s.last();
        assert(t.char_ids().contains_key(s[s.len() - 1] as u32));
        let id = t.char_ids()[c as u32];
        assert(e.last() == id);
        lemma_char_code(t.id_chars()[id], c);
        assert(t.id_chars()[id] == c);
        assert(s =~= p.push(c));
    }
}

/// The ASCII tokenizer of `new` gives back every ASCII text it encodes.
pub proof fn lemma_ascii_roundtrip(t: CharTokenizer, s: Seq<char>)
    requires
        t.char_ids() == ascii_char_ids(),
        t.id_chars() == ascii_id_chars(),
        forall|i: int| 0 <= i < s.len() ==> (#[trigger] s[i] as u32) < 128,
    ensures
        t.decode_spec(t.encode_spec(s)) == s,
{
    lemma_ascii_wf(t);
    lemma_char_roundtrip(t, s);
}

proof fn lemma_ascii_wf(t: CharTokenizer)
    requires
        t.char_ids() == ascii_char_ids(),
        t.id_chars() == ascii_id_chars(),
    ensures
        t.wf(),
{
    assert forall|k: u32| #[trigger] t.char_ids().contains_key(k) implies t.id_chars().contains_key(t.char_ids()[k])
        && t.id_chars()[t.char_ids()[k]] as u32 == k by {
        if k != 0 {
            let c = k as char;
            assert(t.id_chars()[k as usize] == c);
            assert(c as u32 == k);
        }
    }
}

/// The ASCII tokenizer of `new` gives back the ASCII characters of any
/// text, in order: every other character is encoded as the unknown token
/// (131), which decodes to nothing. The premises are what `new` ensures.
pub proof fn lemma_ascii_roundtrip_any(t: CharTokenizer, s: Seq<char>)
    requires
        t.char_ids() == ascii_char_ids(),
        t.id_chars() == ascii_id_chars(),
        t.specials().unk == Some(131usize),
    ensures
        t.decode_spec(t.encode_spec(s)) == ascii_only(s),
    decreases s.len(),
{
    if s.len() > 0 {
        let p = s.drop_last();
        lemma_ascii_roundtrip_any(t, p);
        let e = t.encode_spec(s);
        assert(e.drop_last() =~= t.encode_spec(p));
        let c = s.last();
        assert(e.last() == t.encode_char(c));
        if (c as u32) < 128 {
            lemma_ascii_wf(t);
            assert(t.char_ids().contains_key(c as u32));
            lemma_char_code(t.id_chars()[t.char_ids()[c as u32]], c);
        } else {
            assert(!t.id_chars().contains_key(131usize));
        }
        reveal(Seq::filter);
        assert(ascii_only(s) == if (c as u32) < 128 {
            ascii_only(p).push(c)
        } else {
            ascii_only(p)
        });
    }
}

/// A tokenizer built by `from_text` on `text` gives back any text with each
/// character that is neither NUL nor a character of `text` replaced by NUL:
/// such a character has no entry and there is no unknown token, so it is
/// encoded as id 0, the padding token, which decodes to NUL. The premises are
/// what `from_text(text)` requires and ensures.
pub proof fn lemma_from_text_roundtrip_any(t: CharTokenizer, text: Seq<char>, s: Seq<char>)
    requires
        text.len() < usize::MAX,
        t.char_ids() == char_id_map(text_alphabet(text)),
        t.id_chars() == id_char_map(text_alphabet(text)),
        t.specials().unk is None,
    ensures
        t.decode_spec(t.encode_spec(s)) == s.map_values(
            |c: char| if c == '\0' || text.contains(c) { c } else { '\0' },
        ),
    decreases s.len(),
{
    let d = text_alphabet(text);
    let full = seq!['\0'] + text;
    let f = |c: char| if c == '\0' || text.contains(c) { c } else { '\0' };
    if s.len() > 0 {
        let p = s.drop_last();
        lemma_from_text_roundtrip_any(t, text, p);
        let e = t.encode_spec(s);
        assert(e.drop_last() =~= t.encode_spec(p));
        let c = s.last();
        assert(e.last() == t.encode_char(c));
        lemma_dedup(full);
        lemma_char_id_map(d);
        lemma_dedup_first(full);
        assert(full.contains(c) <==> (c == '\0' || text.contains(c))) by {
            if text.contains(c) {
                let k = choose|k: int| 0 <= k < text.len() && text[k] == c;
                assert(full[k + 1] == c);
            }
            if c == '\0' {
                assert(full[0] == c);
            }
            if full.contains(c) && c != '\0' {
                let k = choose|k: int| 0 <= k < full.len() && full[k] == c;
                assert(text[k - 1] == c);
            }
        }
        if d.contains(c) {
            let j = choose|j: int| 0 <= j < d.len() && d[j] == c;
            assert(t.char_ids().contains_key(d[j] as u32));
            assert(t.char_ids()[c as u32] == j);
        } else {
            assert(!t.char_ids().contains_key(c as u32)) by {
                if t.char_ids().contains_key(c as u32) {
                    let j = choose|j: int| 0 <= j < d.len() && d[j] as u32 == c as u32;
                    lemma_char_code(d[j], c);
                }
            }
            assert(d[0] == '\0');
        }
        assert(s.map_values(f) =~= p.map_values(f).push(f(c)));
    }
}

/// A tokenizer built by `from_text` on `text` gives back every text made of
/// characters of `text`.
pub proof fn lemma_from_text_roundtrip(t: CharTokenizer, text: Seq<char>, s: Seq<char>)
    requires
        text.len() < usize::MAX,
        t.char_ids() == char_id_map(text_alphabet(text)),
        t.id_chars() == id_char_map(text_alphabet(text)),
        forall|i: int| 0 <= i < s.len() ==> text.contains(#[trigger] s[i]),
    ensures
        t.decode_spec(t.encode_spec(s)) == s,
{
    let d = text_alphabet(text);
    let full = seq!['\0'] + text;
    lemma_dedup(full);
    lemma_char_id_map(d);
    assert forall|k: u32| #[trigger] t.char_ids().contains_key(k) implies t.id_chars().contains_key(t.char_ids()[k])
        && t.id_chars()[t.char_ids()[k]] as u32 == k by {
        let j = choose|j: int| 0 <= j < d.len() && d[j] as u32 == k;
    }
    assert forall|i: int| 0 <= i < s.len() implies t.char_ids().contains_key(#[trigger] s[i] as u32) by {
        let c = s[i];
        let j = choose|j: int| 0 <= j < text.len() && text[j] == c;
        assert(full[j + 1] == c);
        assert(full.contains(c));
        assert(d.contains(c));
        let k = choose|k: int| 0 <= k < d.len() && d[k] == c;
        assert(d[k] as u32 == c as u32);
    }
    lemma_char_roundtrip(t, s);
}

impl Default for CharTokenizer {
    /// The ASCII tokenizer of `new`.
    fn default() -> (t: Self)
        ensures
            t.char_ids() == ascii_char_ids(),
            t.id_chars() == ascii_id_chars(),
            t.spec_vocab_size() == 256,
            t.specials() == (SpecialTokens {
                pad: Some(128),
                bos: Some(129),
                eos: Some(130),
                unk: Some(131),
                mask: None,
            }),
            t.wf(),
    {
        Self::new()
    }
}

impl Tokenizer for CharTokenizer {
    /// One id per character of `text`.
    fn encode(&self, text: &str) -> (r: Vec<usize>)
        ensures
            r@ == self.encode_spec(text@),
    {
        let chars = chars_of(text);
        let mut out: Vec<usize> = Vec::new();
        let mut i: usize = 0;
        while i < chars.len()
            invariant
                i <= chars.len(),
                chars@ == text@,
                out@ == self.encode_spec(text@.take(i as int)),
            decreases chars.len() - i,
        {
            let c = chars[i];
            let id = match self.char_to_id.get(&(c as u32)) {
                Some(id) => *id,
                None => match self.special_tokens.unk {
                    Some(u) => u,
                    None => 0,
                },
            };
            out.push(id);
            assert(self.encode_spec(text@.take(i + 1)) =~= self.encode_spec(text@.take(i as int)).push(id));
            i = i + 1;
        }
        assert(text@.take(chars.len() as int) =~= text@);
        out
    }

    /// The characters of the known ids, in order.
    fn decode(&self, ids: &[usize]) -> (r: String)
        ensures
            r@ == self.decode_spec(ids@),
    {
        let mut out: Vec<char> = Vec::new();
        let mut i: usize = 0;
        while i < ids.len()
            invariant
                i <= ids.len(),
                out@ == self.decode_spec(ids@.take(i as int)),
            decreases ids.len() - i,
        {
            assert(ids@.take(i + 1).drop_last() =~= ids@.take(i as int));
            match self.id_to_char.get(&ids[i]) {
                Some(c) => out.push(*c),
                None => {},
            }
            i = i + 1;
        }
        assert(ids@.take(ids.len() as int) =~= ids@);
        string_from_chars(&out)
    }

    /// The vocabulary size fixed at construction.
    fn vocab_size(&self) -> (r: usize)
        ensures
            r == self.spec_vocab_size(),
    {
        self.vocab_size
    }

    /// The special token ids.
    fn special_tokens(&self) -> (r: SpecialTokens)
        ensures
            r == self.specials(),
    {
        self.special_tokens
    }
}

/// Names what `str::to_lowercase` returns for a string: its Unicode
/// lowercase mapping, a function of the string alone.
pub uninterp spec fn lowercase(s: Seq<char>) -> Seq<char>;

/// The lowercase form of `s`.
///
/// Trusted: calls `str::to_lowercase`; the contract says only that the result
/// is the (named) lowercase mapping of `s`, which depends on `s` alone.
#[verifier::external_body]
pub fn to_lowercase(s: &str) -> (r: String)
    ensures
        r@ == lowercase(s@),
{
    s.to_lowercase()
}

/// The lowercase form of a word given as characters.
fn lowercase_word(w: &Vec<char>) -> (r: String)
    ensures
        r@ == lowercase(w@),
{
    let s = string_from_chars(w);
    to_lowercase(s.as_str())
}

/// The character sequences of a list of strings.
pub open spec fn views(v: Seq<String>) -> Seq<Seq<char>> {
    v.map_values(|s: String| s@)
}

/// The number of distinct strings in `v`.
pub fn count_distinct(v: &Vec<String>) -> (r: usize)
    ensures
        r == dedup(views(v@)).len(),
{
    let ghost keys = views(v@);
    let mut n: usize = 0;
    let mut i: usize = 0;
    while i < v.len()
        invariant
            i <= v.len(),
            keys == views(v@),
            n == dedup(keys.take(i as int)).len(),
            n <= i,
        decreases v.len() - i,
    {
        let ghost pre = keys.take(i as int);
        let ghost x = keys[i as int];
        proof {
            assert(keys.take(i + 1).drop_last() =~= pre);
            assert(keys.take(i + 1).last() == x);
            lemma_dedup(pre);
        }
        let mut seen = false;
        let mut j: usize = 0;
        while j < i
            invariant
                j <= i,
                i < v.len(),
                keys == views(v@),
                x == keys[i as int],
                seen == keys.take(j as int).contains(x),
            decreases i - j,
        {
            let eq = v[j] == v[i];
            proof {
                let t = keys.take(j + 1);
                let t0 = keys.take(j as int);
                assert(t[j as int] == v@[j as int]@);
                if t.contains(x) {
                    let k = choose|k: int| 0 <= k < t.len() && t[k] == x;
                    if k < j {
                        assert(t0[k] == t[k]);
                    }
                }
                if t0.contains(x) {
                    let k = choose|k: int| 0 <= k < t0.len() && t0[k] == x;
                    assert(t[k] == t0[k]);
                }
                if eq {
                    assert(t.contains(x));
                }
                assert(t.contains(x) == (t0.contains(x) || eq));
            }
            if eq {
                seen = true;
            }
            j = j + 1;
        }
        if !seen {
            n = n + 1;
        }
        i = i + 1;
    }
    assert(keys.take(v.len() as int) =~= keys);
    n
}

/// The last position of `x` in `s`, if any.
pub open spec fn last_index_of<A>(s: Seq<A>, x: A) -> Option<int>
    decreases s.len(),
{
    if s.len() == 0 {
        None
    } else if s.last() == x {
        Some(s.len() - 1)
    } else {
        last_index_of(s.drop_last(), x)
    }
}

/// What `last_index_of` finds is a position holding `x`, and it finds one
/// exactly when `x` occurs.
pub proof fn lemma_last_index_of<A>(s: Seq<A>, x: A)
    ensures
        last_index_of(s, x) is Some <==> s.contains(x),
        last_index_of(s, x) matches Some(i) ==> 0 <= i < s.len() && s[i] == x,
        last_index_of(s, x) matches Some(i) ==> forall|j: int| i < j < s.len() ==> s[j] != x,
    decreases s.len(),
{
    if s.len() > 0 {
        lemma_last_index_of(s.drop_last(), x);
        if s.contains(x) && s.last() != x {
            let k = choose|k: int| 0 <= k < s.len() && s[k] == x;
            assert(s.drop_last()[k] == x);
        }
        if s.last() != x && s.drop_last().contains(x) {
            let k = choose|k: int| 0 <= k < s.drop_last().len() && s.drop_last()[k] == x;
            assert(s[k] == x);
        }
        if s.last() != x {
            if let Some(i) = last_index_of(s, x) {
                assert forall|j: int| i < j < s.len() implies s[j] != x by {
                    if j < s.len() - 1 {
                        assert(s.drop_last()[j] == s[j]);
                    }
                }
            }
        }
    }
}

/// The number of occurrences of `x` in `s`.
pub open spec fn count_of<A>(s: Seq<A>, x: A) -> nat
    decreases s.len(),
{
    if s.len() == 0 {
        0
    } else {
        count_of(s.drop_last(), x) + if s.last() == x {
            1nat
        } else {
            0nat
        }
    }
}

proof fn lemma_count_of<A>(s: Seq<A>, x: A)
    ensures
        count_of(s, x) <= s.len(),
        !s.contains(x) ==> count_of(s, x) == 0,
    decreases s.len(),
{
    if s.len() > 0 {
        lemma_count_of(s.drop_last(), x);
        if !s.contains(x) {
            assert(s[s.len() - 1] != x);
            assert forall|k: int| 0 <= k < s.drop_last().len() implies s.drop_last()[k] != x by {
                assert(s[k] == s.drop_last()[k]);
            }
        }
    }
}

/// The elements of `d` that occur at least `min` times in `all`, in the order
/// of `d`.
pub open spec fn frequent<A>(d: Seq<A>, all: Seq<A>, min: nat) -> Seq<A>
    decreases d.len(),
{
    if d.len() == 0 {
        seq![]
    } else {
        let r = frequent(d.drop_last(), all, min);
        if count_of(all, d.last()) >= min {
            r.push(d.last())
        } else {
            r
        }
    }
}

/// The words of `ws` joined by single spaces.
pub open spec fn join_words(ws: Seq<Seq<char>>) -> Seq<char>
    decreases ws.len(),
{
    if ws.len() == 0 {
        seq![]
    } else if ws.len() == 1 {
        ws[0]
    } else {
        join_words(ws.drop_last()) + seq![' '] + ws.last()
    }
}

/// The four special words that open the vocabulary of a `SimpleTokenizer`.
pub open spec fn simple_specials() -> Seq<Seq<char>> {
    seq!["<pad>"@, "<bos>"@, "<eos>"@, "<unk>"@]
}

/// The special ids of a `SimpleTokenizer`.
pub open spec fn simple_special_ids() -> SpecialTokens {
    SpecialTokens { pad: Some(0), bos: Some(1), eos: Some(2), unk: Some(3), mask: None }
}

/// The vocabulary that `from_text` builds from the lowercased words `lw` of a
/// text: the special words, then each distinct word of `lw` that occurs in
/// `lw` at least `min_freq` times, in order of first occurrence (a word not
/// in `lw` never enters, even for `min_freq` 0).
pub open spec fn simple_vocabulary(lw: Seq<Seq<char>>, min_freq: nat) -> Seq<Seq<char>> {
    simple_specials() + frequent(dedup(lw), lw, min_freq)
}

/// A word-level tokenizer: whitespace-separated words, compared in
/// lowercase, are the tokens.
///
/// The word of id `i` is the `i`-th entry of the vocabulary; a word's id is
/// the last id that holds it.
pub struct SimpleTokenizer {
    id_to_word: Vec<String>,
    special_tokens: SpecialTokens,
}

impl SimpleTokenizer {
    /// The word of each id, by position.
    pub closed spec fn vocabulary(&self) -> Seq<Seq<char>> {
        views(self.id_to_word@)
    }

    /// The special token ids.
    pub closed spec fn specials(&self) -> SpecialTokens {
        self.special_tokens
    }

    /// The id of an (already lowercased) word: the last id holding it, else
    /// the unknown token.
    pub open spec fn word_id(&self, w: Seq<char>) -> usize {
        match last_index_of(self.vocabulary(), w) {
            Some(i) => i as usize,
            None => match self.specials().unk {
                Some(u) => u,
                None => 0,
            },
        }
    }

    /// The ids of a list of lowercased words.
    pub open spec fn encode_words_spec(&self, lw: Seq<Seq<char>>) -> Seq<usize> {
        lw.map_values(|w: Seq<char>| self.word_id(w))
    }

    /// The ids of the lowercased words of `text`.
    pub open spec fn encode_spec(&self, text: Seq<char>) -> Seq<usize> {
        self.encode_words_spec(words_of(text).map_values(|w: Seq<char>| lowercase(w)))
    }

    /// The words of the known ids of `ids`, in order.
    pub open spec fn decode_words(&self, ids: Seq<usize>) -> Seq<Seq<char>>
        decreases ids.len(),
    {
        if ids.len() == 0 {
            seq![]
        } else {
            let r = self.decode_words(ids.drop_last());
            if ids.last() < self.vocabulary().len() {
                r.push(self.vocabulary()[ids.last() as int])
            } else {
                r
            }
        }
    }

    /// The text of `ids`: the words of the known ids joined by spaces.
    pub open spec fn decode_spec(&self, ids: Seq<usize>) -> Seq<char> {
        join_words(self.decode_words(ids))
    }

    /// The tokenizer of the (already lowercased) words `words`: the special
    /// words `<pad>`, `<bos>`, `<eos>`, `<unk>` get ids 0 to 3, then every
    /// distinct word of `words` that occurs in `words` at least `min_freq`
    /// times gets the next id, in order of first occurrence; a word absent
    /// from `words` gets none, even for `min_freq` 0.
    pub fn from_words(words: &Vec<String>, min_freq: usize) -> (t: Self)
        ensures
            t.vocabulary() == simple_vocabulary(views(words@), min_freq as nat),
            t.vocabulary().len() <= usize::MAX,
            t.specials() == simple_special_ids(),
    {
        let ghost lw = views(words@);
        let mut uniq: Vec<String> = Vec::new();
        let mut counts: Vec<usize> = Vec::new();
        let mut i: usize = 0;
        while i < words.len()
            invariant
                i <= words.len(),
                lw == views(words@),
                views(uniq@) == dedup(lw.take(i as int)),
                counts@.len() == uniq@.len(),
                forall|j: int| 0 <= j < counts@.len() ==> #[trigger] counts@[j] == count_of(lw.take(i as int), uniq@[j]@),
                forall|j: int| 0 <= j < counts@.len() ==> #[trigger] counts@[j] <= i,
            decreases words.len() - i,
        {
            let w = &words[i];
            let ghost pre = lw.take(i as int);
            proof {
                lemma_dedup(pre);
                assert(lw.take(i + 1).drop_last() =~= pre);
                assert(lw.take(i + 1).last() == w@);
            }
            let found = find_last(&uniq, w);
            match found {
                Some(j) => {
                    proof {
                        lemma_last_index_of(views(uniq@), w@);
                    }
                    let c = counts[j];
                    counts.set(j, c + 1);
                    proof {
                        assert(views(uniq@).contains(w@));
                        assert(dedup(lw.take(i + 1)) == dedup(pre));
                        assert forall|k: int| 0 <= k < counts@.len() implies #[trigger] counts@[k] == count_of(lw.take(i + 1), uniq@[k]@) by {
                            if k != j {
                                assert(views(uniq@)[k] != views(uniq@)[j as int]);
                            }
                        }
                    }
                },
                None => {
                    proof {
                        lemma_last_index_of(views(uniq@), w@);
                        lemma_count_of(pre, w@);
                    }
                    uniq.push(w.clone());
                    counts.push(1);
                    proof {
                        assert(views(uniq@) =~= dedup(pre).push(w@));
                        assert forall|k: int| 0 <= k < counts@.len() implies #[trigger] counts@[k] == count_of(lw.take(i + 1), uniq@[k]@) by {
                            if k < counts@.len() - 1 {
                                assert(views(uniq@)[k] != w@) by {
                                    assert(dedup(pre)[k] == views(uniq@)[k]);
                                }
                            }
                        }
                    }
                },
            }
            i = i + 1;
        }
        proof {
            assert(lw.take(words.len() as int) =~= lw);
        }
        let mut id_to_word: Vec<String> = Vec::new();
        id_to_word.push("<pad>".to_string());
        id_to_word.push("<bos>".to_string());
        id_to_word.push("<eos>".to_string());
        id_to_word.push("<unk>".to_string());
        assert(views(id_to_word@) =~= simple_specials());
        let ghost d = dedup(lw);
        let mut j: usize = 0;
        while j < uniq.len()
            invariant
                j <= uniq.len(),
                views(uniq@) == d,
                counts@.len() == uniq@.len(),
                forall|k: int| 0 <= k < counts@.len() ==> #[trigger] counts@[k] == count_of(lw, uniq@[k]@),
                views(id_to_word@) == simple_specials() + frequent(d.take(j as int), lw, min_freq as nat),
            decreases uniq.len() - j,
        {
            proof {
                assert(d.take(j + 1).drop_last() =~= d.take(j as int));
                assert(d.take(j + 1).last() == uniq@[j as int]@);
            }
            if counts[j] >= min_freq {
                let ghost prev = id_to_word@;
                id_to_word.push(uniq[j].clone());
                proof {
                    assert(views(uniq@)[j as int] == uniq@[j as int]@);
                    assert(frequent(d.take(j + 1), lw, min_freq as nat) == frequent(d.take(j as int), lw, min_freq as nat).push(uniq@[j as int]@));
                    assert(views(id_to_word@) =~= views(prev).push(uniq@[j as int]@));
                }
                assert(views(id_to_word@) =~= simple_specials() + frequent(d.take(j + 1), lw, min_freq as nat));
            }
            j = j + 1;
        }
        assert(d.take(uniq.len() as int) =~= d);
        let special_tokens = SpecialTokens { pad: Some(0), bos: Some(1), eos: Some(2), unk: Some(3), mask: None };
        assert(views(id_to_word@).len() == id_to_word.len());
        SimpleTokenizer { id_to_word, special_tokens }
    }

    /// The tokenizer of the text `text` with minimum word frequency
    /// `min_freq`: the words are the whitespace-separated words of `text`,
    /// lowercased.
    pub fn from_text(text: &str, min_freq: usize) -> (t: Self)
        ensures
            t.vocabulary() == simple_vocabulary(
                words_of(text@).map_values(|w: Seq<char>| lowercase(w)),
                min_freq as nat,
            ),
            t.vocabulary().len() <= usize::MAX,
            t.specials() == simple_special_ids(),
    {
        let lw = lowercase_words(text);
        Self::from_words(&lw, min_freq)
    }

    /// The ids of the (already lowercased) words `words`.
    pub fn encode_words(&self, words: &Vec<String>) -> (r: Vec<usize>)
        ensures
            r@ == self.encode_words_spec(views(words@)),
    {
        let mut out: Vec<usize> = Vec::new();
        let mut i: usize = 0;
        while i < words.len()
            invariant
                i <= words.len(),
                out@ == self.encode_words_spec(views(words@).take(i as int)),
            decreases words.len() - i,
        {
            proof {
                lemma_last_index_of(self.vocabulary(), words@[i as int]@);
            }
            let id = match find_last(&self.id_to_word, &words[i]) {
                Some(j) => j,
                None => match self.special_tokens.unk {
                    Some(u) => u,
                    None => 0,
                },
            };
            out.push(id);
            assert(self.encode_words_spec(views(words@).take(i + 1)) =~= self.encode_words_spec(views(words@).take(i as int)).push(id));
            i = i + 1;
        }
        assert(views(words@).take(words.len() as int) =~= views(words@));
        out
    }
}

/// The lowercased words of a text.
pub open spec fn lowercase_words_of(text: Seq<char>) -> Seq<Seq<char>> {
    words_of(text).map_values(|w: Seq<char>| lowercase(w))
}

/// Decoding the ids of words that are all in the vocabulary gives the words
/// back.
pub proof fn lemma_encode_words_decode(t: SimpleTokenizer, lw: Seq<Seq<char>>)
    requires
        forall|i: int| 0 <= i < lw.len() ==> t.vocabulary().contains(#[trigger] lw[i]),
        t.vocabulary().len() <= usize::MAX,
    ensures
        t.decode_words(t.encode_words_spec(lw)) == lw,
    decreases lw.len(),
{
    if lw.len() > 0 {
        let p = lw.drop_last();
        assert forall|i: int| 0 <= i < p.len() implies t.vocabulary().contains(#[trigger] p[i]) by {
            assert(p[i] == lw[i]);
        }
        lemma_encode_words_decode(t, p);
        let e = t.encode_words_spec(lw);
        assert(e.drop_last() =~= t.encode_words_spec(p));
        let w = lw.last();
        assert(t.vocabulary().contains(lw[lw.len() - 1]));
        lemma_last_index_of(t.vocabulary(), w);
        assert(lw =~= p.push(w));
    }
}

/// Decoding the encoding of a text gives its lowercased words joined by
/// single spaces whenever every lowercased word is in the vocabulary.
pub proof fn lemma_simple_roundtrip(t: SimpleTokenizer, s: Seq<char>)
    requires
        forall|i: int| 0 <= i < lowercase_words_of(s).len() ==> t.vocabulary().contains(
            #[trigger] lowercase_words_of(s)[i],
        ),
        t.vocabulary().len() <= usize::MAX,
    ensures
        t.decode_spec(t.encode_spec(s)) == join_words(lowercase_words_of(s)),
{
    lemma_encode_words_decode(t, lowercase_words_of(s));
}

proof fn lemma_frequent_contains<A>(d: Seq<A>, all: Seq<A>, min: nat, x: A)
    requires
        d.contains(x),
        count_of(all, x) >= min,
    ensures
        frequent(d, all, min).contains(x),
    decreases d.len(),
{
    let r = frequent(d.drop_last(), all, min);
    if d.last() == x {
        assert(r.push(x)[r.len() as int] == x);
    } else {
        let k = choose|k: int| 0 <= k < d.len() && d[k] == x;
        assert(d.drop_last()[k] == x);
        lemma_frequent_contains(d.drop_last(), all, min, x);
        if count_of(all, d.last()) >= min {
            let j = choose|j: int| 0 <= j < r.len() && r[j] == x;
            assert(r.push(d.last())[j] == x);
        }
    }
}

/// A tokenizer built by `from_text` on `text` with `min_freq` gives back the
/// lowercased words of every text whose lowercased words each occur at least
/// `min_freq` times (and at least once) among the lowercased words of `text`.
pub proof fn lemma_from_text_simple_roundtrip(t: SimpleTokenizer, text: Seq<char>, min_freq: nat, s: Seq<char>)
    requires
        t.vocabulary() == simple_vocabulary(lowercase_words_of(text), min_freq),
        t.vocabulary().len() <= usize::MAX,
        forall|i: int| 0 <= i < lowercase_words_of(s).len() ==> lowercase_words_of(text).contains(
            #[trigger] lowercase_words_of(s)[i],
        ) && count_of(lowercase_words_of(text), lowercase_words_of(s)[i]) >= min_freq,
    ensures
        t.decode_spec(t.encode_spec(s)) == join_words(lowercase_words_of(s)),
{
    let lw = lowercase_words_of(text);
    let ls = lowercase_words_of(s);
    lemma_dedup(lw);
    assert forall|i: int| 0 <= i < ls.len() implies t.vocabulary().contains(#[trigger] ls[i]) by {
        lemma_frequent_contains(dedup(lw), lw, min_freq, ls[i]);
        let f = frequent(dedup(lw), lw, min_freq);
        let k = choose|k: int| 0 <= k < f.len() && f[k] == ls[i];
        assert(t.vocabulary()[4 + k] == ls[i]);
    }
    lemma_simple_roundtrip(t, s);
}

proof fn lemma_frequent_member<A>(d: Seq<A>, all: Seq<A>, min: nat, x: A)
    ensures
        frequent(d, all, min).contains(x) <==> d.contains(x) && count_of(all, x) >= min,
    decreases d.len(),
{
    if d.len() > 0 {
        let p = d.drop_last();
        lemma_frequent_member(p, all, min, x);
        let r = frequent(p, all, min);
        if d.contains(x) && count_of(all, x) >= min {
            lemma_frequent_contains(d, all, min, x);
        }
        if frequent(d, all, min).contains(x) {
            let k = choose|k: int| 0 <= k < frequent(d, all, min).len() && frequent(d, all, min)[k] == x;
            if k < r.len() {
                assert(r[k] == x);
                let j = choose|j: int| 0 <= j < p.len() && p[j] == x;
                assert(d[j] == x);
            } else {
                assert(d[d.len() - 1] == x);
            }
        }
    }
}

/// Decoding the ids of lowercased words gives each word back when the
/// vocabulary holds it, and the word of the unknown id otherwise.
proof fn lemma_encode_words_decode_unknown(t: SimpleTokenizer, lw: Seq<Seq<char>>)
    requires
        t.specials().unk == Some(3usize),
        3 < t.vocabulary().len() <= usize::MAX,
    ensures
        t.decode_words(t.encode_words_spec(lw)) == lw.map_values(
            |w: Seq<char>| if t.vocabulary().contains(w) { w } else { t.vocabulary()[3] },
        ),
    decreases lw.len(),
{
    let f = |w: Seq<char>| if t.vocabulary().contains(w) { w } else { t.vocabulary()[3] };
    if lw.len() > 0 {
        let p = lw.drop_last();
        lemma_encode_words_decode_unknown(t, p);
        let e = t.encode_words_spec(lw);
        assert(e.drop_last() =~= t.encode_words_spec(p));
        let w = lw.last();
        assert(e.last() == t.word_id(w));
        lemma_last_index_of(t.vocabulary(), w);
        assert(lw.map_values(f) =~= p.map_values(f).push(f(w)));
    }
}

/// A tokenizer built by `from_text` on `text` decodes the encoding of any
/// text `s` to the lowercased words of `s` joined by single spaces, each
/// word outside the vocabulary replaced by `<unk>`. The vocabulary holds the
/// four special words and the lowercased words of `text` that occur in it at
/// least `min_freq` times (and at least once, whatever `min_freq`). The
/// premises are what `from_text(text, min_freq)` ensures.
pub proof fn lemma_from_text_simple_roundtrip_unknown(t: SimpleTokenizer, text: Seq<char>, min_freq: nat, s: Seq<char>)
    requires
        t.vocabulary() == simple_vocabulary(lowercase_words_of(text), min_freq),
        t.specials() == simple_special_ids(),
        t.vocabulary().len() <= usize::MAX,
    ensures
        forall|w: Seq<char>| #[trigger] t.vocabulary().contains(w) <==> simple_specials().contains(w) || (
            lowercase_words_of(text).contains(w) && count_of(lowercase_words_of(text), w) >= min_freq),
        t.decode_spec(t.encode_spec(s)) == join_words(
            lowercase_words_of(s).map_values(
                |w: Seq<char>| if t.vocabulary().contains(w) { w } else { "<unk>"@ },
            ),
        ),
{
    let lw = lowercase_words_of(text);
    let sp = simple_specials();
    let f = frequent(dedup(lw), lw, min_freq);
    lemma_dedup(lw);
    assert forall|w: Seq<char>| #[trigger] t.vocabulary().contains(w) <==> sp.contains(w) || (lw.contains(w)
        && count_of(lw, w) >= min_freq) by {
        lemma_frequent_member(dedup(lw), lw, min_freq, w);
        if t.vocabulary().contains(w) {
            let k = choose|k: int| 0 <= k < t.vocabulary().len() && t.vocabulary()[k] == w;
            if k < 4 {
                assert(sp[k] == w);
            } else {
                assert(f[k - 4] == w);
            }
        }
        if sp.contains(w) {
            let k = choose|k: int| 0 <= k < sp.len() && sp[k] == w;
            assert(t.vocabulary()[k] == w);
        }
        if f.contains(w) {
            let k = choose|k: int| 0 <= k < f.len() && f[k] == w;
            assert(t.vocabulary()[4 + k] == w);
        }
    }
    assert(t.vocabulary()[3] == "<unk>"@);
    lemma_encode_words_decode_unknown(t, lowercase_words_of(s));
}

/// The last position of `w` in `v`.
fn find_last(v: &Vec<String>, w: &String) -> (r: Option<usize>)
    ensures
        r matches Some(j) ==> last_index_of(views(v@), w@) == Some(j as int),
        r is None ==> last_index_of(views(v@), w@) is None,
{
    let mut i: usize = v.len();
    assert(views(v@).take(i as int) =~= views(v@));
    while i > 0
        invariant
            i <= v.len(),
            last_index_of(views(v@), w@) == last_index_of(views(v@).take(i as int), w@),
        decreases i,
    {
        assert(views(v@).take(i as int).drop_last() =~= views(v@).take(i - 1));
        if v[i - 1] == *w {
            return Some(i - 1);
        }
        i = i - 1;
    }
    None
}

/// The lowercased whitespace-separated words of `text`.
fn lowercase_words(text: &str) -> (r: Vec<String>)
    ensures
        views(r@) == words_of(text@).map_values(|w: Seq<char>| lowercase(w)),
{
    let chars = chars_of(text);
    let ws = split_words(&chars);
    let ghost wv = ws@.map_values(|w: Vec<char>| w@);
    let mut out: Vec<String> = Vec::new();
    let mut i: usize = 0;
    while i < ws.len()
        invariant
            i <= ws.len(),
            wv == ws@.map_values(|w: Vec<char>| w@),
            wv == words_of(text@),
            views(out@) == wv.take(i as int).map_values(|w: Seq<char>| lowercase(w)),
        decreases ws.len() - i,
    {
        let l = lowercase_word(&ws[i]);
        let ghost prev = out@;
        out.push(l);
        assert(wv[i as int] == ws@[i as int]@);
        assert(wv.take(i + 1) =~= wv.take(i as int).push(wv[i as int]));
        assert(views(out@) =~= views(prev).push(l@));
        assert(views(out@) =~= wv.take(i + 1).map_values(|w: Seq<char>| lowercase(w)));
        i = i + 1;
    }
    assert(wv.take(ws.len() as int) =~= wv);
    out
}

impl Tokenizer for SimpleTokenizer {
    /// The ids of the lowercased words of `text`; a word outside the
    /// vocabulary is the unknown token.
    fn encode(&self, text: &str) -> (r: Vec<usize>)
        ensures
            r@ == self.encode_spec(text@),
    {
        let lw = lowercase_words(text);
        self.encode_words(&lw)
    }

    /// The words of the known ids, joined by single spaces.
    fn decode(&self, ids: &[usize]) -> (r: String)
        ensures
            r@ == self.decode_spec(ids@),
    {
        let mut out: Vec<char> = Vec::new();
        let mut count: usize = 0;
        let mut i: usize = 0;
        while i < ids.len()
            invariant
                i <= ids.len(),
                count == self.decode_words(ids@.take(i as int)).len(),
                count <= i,
                out@ == join_words(self.decode_words(ids@.take(i as int))),
            decreases ids.len() - i,
        {
            let id = ids[i];
            assert(ids@.take(i + 1).drop_last() =~= ids@.take(i as int));
            if id < self.id_to_word.len() {
                if count > 0 {
                    out.push(' ');
                }
                push_str(&mut out, self.id_to_word[id].as_str());
                proof {
                    let prev = self.decode_words(ids@.take(i as int));
                    let next = self.decode_words(ids@.take(i + 1));
                    assert(next == prev.push(self.vocabulary()[id as int]));
                    assert(next.drop_last() =~= prev);
                    assert(out@ =~= join_words(next));
                }
                count = count + 1;
            }
            i = i + 1;
        }
        assert(ids@.take(ids.len() as int) =~= ids@);
        string_from_chars(&out)
    }

    /// The number of distinct words in the vocabulary.
    fn vocab_size(&self) -> (r: usize)
        ensures
            r == dedup(self.vocabulary()).len(),
    {
        count_distinct(&self.id_to_word)
    }

    /// The special token ids.
    fn special_tokens(&self) -> (r: SpecialTokens)
        ensures
            r == self.specials(),
    {
        self.special_tokens
    }
}

} // verus!
