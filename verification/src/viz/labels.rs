//! Display labels of token ids.
use vstd::prelude::*;
use crate::text::{decimal, push_usize, string_from_chars};

verus! {

/// The label of token id `id`: the character with that code for an id
/// below 128, else the id in decimal between square brackets.
pub open spec fn token_label_text(id: usize) -> Seq<char> {
    if id < 128 {
        seq![(id as u8) as char]
    } else {
        seq!['['] + decimal(id as nat) + seq![']']
    }
}

/// The display label of token id `id`.
pub fn token_label(id: usize) -> (r: String)
    ensures
        r@ == token_label_text(id),
{
    let mut out: Vec<char> = Vec::new();
    if id < 128 {
        out.push((id as u8) as char);
    } else {
        out.push('[');
        push_usize(&mut out, id);
        out.push(']');
    }
    assert(out@ =~= token_label_text(id));
    string_from_chars(&out)
}

} // verus!
