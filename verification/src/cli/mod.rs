//! What the command line programs read and decide.

pub mod bench;
pub mod project;
pub mod run;
pub mod serve;
pub mod spec;

use vstd::prelude::*;
use vstd::string::*;
use crate::radix_cache::TokenId;
use crate::text;

verus! {

/// A token for each byte of a text.
pub open spec fn byte_tokens(s: Seq<char>) -> Seq<TokenId> {
    vstd::utf8::encode_utf8(s).map_values(|b: u8| b as u32)
}

/// A token for each byte of a text: naive, but it needs no tokenizer.
pub fn bytes_as_tokens(s: &str) -> (v: Vec<TokenId>)
    ensures
        v@ == byte_tokens(s@),
{
    let bytes: &[u8] = s.as_bytes();
    let mut v: Vec<TokenId> = Vec::with_capacity(bytes.len());
    let mut i: usize = 0;
    while i < bytes.len()
        invariant
            i <= bytes@.len(),
            bytes@ == vstd::utf8::encode_utf8(s@),
            v@ == byte_tokens(s@).take(i as int),
        decreases bytes@.len() - i,
    {
        v.push(bytes[i] as u32);
        i = i + 1;
        assert(v@ =~= byte_tokens(s@).take(i as int));
    }
    assert(v@ =~= byte_tokens(s@));
    v
}

/// The argument at a place, if there is one.
pub open spec fn argument(args: Seq<Seq<char>>, i: int) -> Option<Seq<char>> {
    if 0 <= i < args.len() {
        Some(args[i])
    } else {
        None
    }
}

/// The argument at a place, if there is one.
pub fn argument_at(args: &[String], i: usize) -> (a: Option<String>)
    ensures
        match argument(text::texts(args@), i as int) {
            Some(s) => a is Some && a->0@ == s,
            None => a is None,
        },
{
    if i < args.len() {
        assert(text::texts(args@)[i as int] == args@[i as int]@);
        Some(String::from_str(args[i].as_str()))
    } else {
        None
    }
}

} // verus!
