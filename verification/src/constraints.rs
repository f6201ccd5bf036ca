//! Structured output constraints (Grammar, Regex, JSON).

use std::sync::Arc;
use llguidance::api::TopLevelGrammar;
use llguidance::ParserFactory;
use vstd::prelude::*;
use vstd::string::*;
use crate::radix_cache::TokenId;
use crate::sampling;
use crate::sampling::{mask_from_elem, mask_set, mask_set_all, LogitMask};
use crate::tokenizer::Tokenizer;

verus! {

/// How far a matcher has come: the tokens that it was advanced by, in order, and
/// the masks that it may give after which tokens.
pub struct Guidance {
    pub tokens: Seq<TokenId>,
    pub masks: spec_fn(Seq<TokenId>, LogitMask) -> bool,
}

impl Guidance {
    /// Whether a mask may be given now.
    pub open spec fn allows(self, mask: LogitMask) -> bool {
        (self.masks)(self.tokens, mask)
    }

    /// Where the matcher is after some tokens more.
    pub open spec fn after(self, more: Seq<TokenId>) -> Guidance {
        Guidance { tokens: self.tokens + more, masks: self.masks }
    }
}

/// Orchestrates constrained generation by providing logit masks at each step.
///
/// The spec functions describe it. They say nothing unless an implementation
/// defines them.
pub trait CfgMatcher: Sized {
    /// How far the matcher has come.
    open spec fn guided(&self) -> Guidance {
        vstd::pervasive::arbitrary()
    }

    /// Returns the mask of allowed tokens for the current state.
    fn next_mask(&mut self) -> (mask: LogitMask)
        ensures
            final(self).guided() == old(self).guided(),
            old(self).guided().allows(mask),
    ;

    /// Advances the matcher's state by consuming the selected token.
    fn advance(&mut self, token: TokenId)
        ensures
            final(self).guided() == old(self).guided().after(seq![token]),
    ;

    /// Clones the matcher to a new Box.
    fn clone_box(&self) -> (copy: Box<Self>)
        ensures
            copy.guided() == self.guided(),
    ;
}

/// `serde_json::Value`, a JSON document.
#[verifier::external_type_specification]
#[verifier::external_body]
pub struct ExValue(serde_json::Value);

/// `<serde_json::Value as Clone>::clone` gives an equal document.
pub assume_specification[ <serde_json::Value as Clone>::clone ](value: &serde_json::Value) -> (copy:
    serde_json::Value)
    ensures
        copy == *value,
;

/// Represents a constraint on generation (Regex, JSON Schema, or Lark Grammar).
#[derive(Debug, Clone)]
pub enum Constraint {
    Regex(String),
    JsonSchema(serde_json::Value),
    Lark(String),
}

/// `llguidance::api::TopLevelGrammar`, a grammar to be compiled.
#[verifier::external_type_specification]
#[verifier::external_body]
pub struct ExTopLevelGrammar(llguidance::api::TopLevelGrammar);

/// `llguidance::ParserFactory`, which compiles grammars for one vocabulary.
#[verifier::external_type_specification]
#[verifier::external_body]
pub struct ExParserFactory(llguidance::ParserFactory);

/// The grammar that `TopLevelGrammar::from_regex` makes of a regular expression.
pub uninterp spec fn regex_grammar(regex: Seq<char>) -> TopLevelGrammar;

/// The grammar that `TopLevelGrammar::from_json_schema` makes of a schema.
pub uninterp spec fn json_grammar(schema: serde_json::Value) -> TopLevelGrammar;

/// The grammar that `TopLevelGrammar::from_lark` makes of a Lark text.
pub uninterp spec fn lark_grammar(text: Seq<char>) -> TopLevelGrammar;

/// `TopLevelGrammar::from_regex`: the grammar is a function of the expression.
#[verifier::external_body]
fn grammar_from_regex(regex: &str) -> (grammar: TopLevelGrammar)
    ensures
        grammar == regex_grammar(regex@),
{
    TopLevelGrammar::from_regex(regex)
}

/// `TopLevelGrammar::from_json_schema`: the grammar is a function of the schema.
#[verifier::external_body]
fn grammar_from_json_schema(schema: serde_json::Value) -> (grammar: TopLevelGrammar)
    ensures
        grammar == json_grammar(schema),
{
    TopLevelGrammar::from_json_schema(schema)
}

/// `TopLevelGrammar::from_lark`: the grammar is a function of the text.
#[verifier::external_body]
fn grammar_from_lark(text: String) -> (grammar: TopLevelGrammar)
    ensures
        grammar == lark_grammar(text@),
{
    TopLevelGrammar::from_lark(text)
}

/// The grammar of a constraint.
pub open spec fn grammar_for(constraint: Constraint) -> TopLevelGrammar {
    match constraint {
        Constraint::Regex(regex) => regex_grammar(regex@),
        Constraint::JsonSchema(schema) => json_grammar(schema),
        Constraint::Lark(text) => lark_grammar(text@),
    }
}

impl Constraint {
    /// The same constraint once more.
    pub fn copy(&self) -> (c: Constraint)
        ensures
            grammar_for(c) == grammar_for(*self),
    {
        match self {
            Constraint::Regex(regex) => Constraint::Regex(String::from_str(regex.as_str())),
            Constraint::JsonSchema(schema) => Constraint::JsonSchema(schema.clone()),
            Constraint::Lark(text) => Constraint::Lark(String::from_str(text.as_str())),
        }
    }
}

/// The grammar of a constraint.
pub fn grammar_of(constraint: Constraint) -> (grammar: TopLevelGrammar)
    ensures
        grammar == grammar_for(constraint),
{
    match constraint {
        Constraint::Regex(regex) => grammar_from_regex(&regex),
        Constraint::JsonSchema(schema) => grammar_from_json_schema(schema),
        Constraint::Lark(grammar) => grammar_from_lark(grammar),
    }
}

/// `llguidance::Matcher`, the state of a grammar on a sequence of tokens.
#[verifier::external_type_specification]
#[verifier::external_body]
pub struct ExMatcher(llguidance::Matcher);

/// The words of the vocabulary that a factory compiles grammars for.
pub uninterp spec fn factory_words(factory: ParserFactory) -> Seq<Seq<u8>>;

/// The special tokens of a factory: the unknown word, the start and the end of a
/// text. The end is what a mask allows where a grammar is complete.
pub uninterp spec fn factory_specials(factory: ParserFactory) -> (u32, u32, u32);

/// What a matcher holds: the factory that made it.
pub uninterp spec fn matcher_factory(matcher: llguidance::Matcher) -> ParserFactory;

/// What a matcher holds: the grammar that it was made for.
pub uninterp spec fn matcher_grammar(matcher: llguidance::Matcher) -> TopLevelGrammar;

/// What a matcher holds: the tokens that it was given, in order.
pub uninterp spec fn matcher_tokens(matcher: llguidance::Matcher) -> Seq<TokenId>;

/// `ParserFactory::create_parser` followed by `Matcher::new`: a matcher at the
/// start of the grammar, or the reason why the grammar cannot be compiled. Which
/// grammars can be compiled is not stated: the work counts against limits, and
/// some of it walks hash maps whose order each process seeds.
#[verifier::external_body]
fn create_parser(factory: &ParserFactory, grammar: TopLevelGrammar) -> (r: Result<
    llguidance::Matcher,
    String,
>)
    ensures
        r is Ok ==> matcher_factory(r->Ok_0) == *factory,
        r is Ok ==> matcher_grammar(r->Ok_0) == grammar,
        r is Ok ==> matcher_tokens(r->Ok_0) == Seq::<TokenId>::empty(),
{
    match factory.create_parser(grammar) {
        Ok(parser) => Ok(llguidance::Matcher::new(Ok(parser))),
        Err(e) => Err(e.to_string()),
    }
}

/// `TokTrie::vocab_size` of the trie that a factory was made with: the number of
/// its words.
#[verifier::external_body]
fn factory_vocab_size(factory: &ParserFactory) -> (n: usize)
    ensures
        n == factory_words(*factory).len(),
{
    factory.tok_env().tok_trie().vocab_size()
}

/// The bytes of all words together.
pub open spec fn bytes_of_all(words: Seq<Seq<u8>>) -> nat
    decreases words.len(),
{
    if words.len() == 0 {
        0
    } else {
        bytes_of_all(words.drop_last()) + words.last().len()
    }
}

/// What a trie can hold: below 2^24 - 1 words, of at most 1024 bytes each and
/// of less than 2^22 - 1 bytes together.
pub open spec fn fits_trie(words: Seq<Seq<u8>>) -> bool {
    &&& words.len() < 0xff_ffff
    &&& bytes_of_all(words) < 0x3f_ffff
    &&& forall|i: int| 0 <= i < words.len() ==> (#[trigger] words[i]).len() <= 1024
}

/// The views of some byte strings.
pub open spec fn byte_views(words: Seq<Vec<u8>>) -> Seq<Seq<u8>> {
    words.map_values(|w: Vec<u8>| w@)
}

/// `TokTrie::from` with `ApproximateTokEnv` and `ParserFactory::new`: a factory
/// for the vocabulary `words`, with the special tokens `unk`, `bos` and `eos`.
/// The trie panics on words that do not fit. A factory without regexes to slice
/// the vocabulary by is always made. What the special tokens do to a grammar is
/// not stated.
#[verifier::external_body]
fn new_factory(words: &Vec<Vec<u8>>, unk: u32, bos: u32, eos: u32) -> (r: Result<
    Arc<ParserFactory>,
    String,
>)
    requires
        fits_trie(byte_views(words@)),
    ensures
        r is Ok,
        factory_words(*r->Ok_0) == byte_views(words@),
        factory_specials(*r->Ok_0) == (unk, bos, eos),
{
    let mut info = toktrie::TokRxInfo::new(words.len() as u32, eos);
    info.tok_bos = Some(bos);
    info.tok_unk = Some(unk);
    let trie = toktrie::TokTrie::from(&info, words);
    let base: toktrie::TokEnv = Arc::new(toktrie::ApproximateTokEnv::new(trie.clone()));
    let env: toktrie::TokEnv = Arc::new(toktrie::TokEnvWithTrie::new(base, trie));
    match ParserFactory::new(&env, Default::default(), &[]) {
        Ok(factory) => Ok(Arc::new(factory)),
        Err(e) => Err(e.to_string()),
    }
}

/// The bytes of each word of a vocabulary.
pub open spec fn token_bytes(tokens: Seq<Seq<char>>) -> Seq<Seq<u8>> {
    tokens.map_values(|w: Seq<char>| vstd::utf8::encode_utf8(w))
}

/// The bytes of each word of a tokenizer.
pub fn vocabulary_bytes(tokenizer: &Tokenizer) -> (all: Vec<Vec<u8>>)
    ensures
        byte_views(all@) == token_bytes(tokenizer@.tokens),
{
    let vocab_size: usize = tokenizer.vocab_size();
    let mut all: Vec<Vec<u8>> = Vec::with_capacity(vocab_size);
    let ghost tokens = tokenizer@.tokens;
    let mut i: usize = 0;
    assert(byte_views(all@) =~= token_bytes(tokens.take(0)));
    while i < vocab_size
        invariant
            i <= vocab_size == tokens.len(),
            tokens == tokenizer@.tokens,
            byte_views(all@) == token_bytes(tokens.take(i as int)),
        decreases vocab_size - i,
    {
        let ghost before = all@;
        let word: Vec<u8> = vstd::slice::slice_to_vec(tokenizer.token_at(i).as_bytes());
        all.push(word);
        i = i + 1;
        assert(byte_views(all@) =~= byte_views(before).push(word@));
        assert(token_bytes(tokens.take(i as int)) =~= token_bytes(tokens.take(i - 1)).push(
            vstd::utf8::encode_utf8(tokens[i - 1]),
        ));
    }
    assert(tokens.take(i as int) =~= tokens);
    all
}

/// Helper to build the llguidance ParserFactory from our Tokenizer. The first
/// three words are the unknown word, the start and the end of a text.
pub fn build_factory(tokenizer: &Tokenizer) -> (r: Result<Arc<ParserFactory>, String>)
    requires
        fits_trie(token_bytes(tokenizer@.tokens)),
    ensures
        r is Ok,
        factory_words(*r->Ok_0) == token_bytes(tokenizer@.tokens),
        factory_specials(*r->Ok_0) == (0u32, 1u32, 2u32),
{
    new_factory(&vocabulary_bytes(tokenizer), 0, 1, 2)
}

/// A matcher based on llguidance.
pub struct LlguidanceMatcher {
    parser: llguidance::Matcher,
    vocab_size: usize,
}

/// Whether some entries are listed in ascending order, each once.
pub open spec fn ascending(entries: Seq<usize>) -> bool {
    forall|i: int, j: int| 0 <= i < j < entries.len() ==> entries[i] < entries[j]
}

/// The tokens that `Matcher::compute_mask_or_eos` allows after some tokens of a
/// grammar that a factory compiled.
pub uninterp spec fn allowed_tokens(
    factory: ParserFactory,
    grammar: TopLevelGrammar,
    tokens: Seq<TokenId>,
) -> Seq<usize>;

/// `Matcher::compute_mask_or_eos` followed by `SimpleVob::iter_set_entries`: the
/// allowed tokens in ascending order, or nothing where the parser fails. The
/// matcher stays where it is. Where the parser succeeds, the tokens that it
/// allows are a function of the vocabulary, the grammar and the tokens so far.
/// When it fails is not stated: its limits count work that earlier steps, and
/// those of clones, may have saved.
#[verifier::external_body]
fn allowed_entries(parser: &mut llguidance::Matcher) -> (entries: Option<Vec<usize>>)
    ensures
        entries is Some ==> ascending(entries->0@),
        entries is Some ==> entries->0@ == allowed_tokens(
            matcher_factory(*old(parser)),
            matcher_grammar(*old(parser)),
            matcher_tokens(*old(parser)),
        ),
        matcher_factory(*final(parser)) == matcher_factory(*old(parser)),
        matcher_grammar(*final(parser)) == matcher_grammar(*old(parser)),
        matcher_tokens(*final(parser)) == matcher_tokens(*old(parser)),
{
    match parser.compute_mask_or_eos() {
        Ok(mask) => {
            let mut entries: Vec<usize> = Vec::new();
            mask.iter_set_entries(|idx| entries.push(idx));
            Some(entries)
        },
        Err(_) => None,
    }
}

/// `Matcher::consume_token` gives a matcher one more token. Whether the grammar
/// allows the token is not looked at.
#[verifier::external_body]
fn consume(parser: &mut llguidance::Matcher, token: TokenId)
    ensures
        matcher_factory(*final(parser)) == matcher_factory(*old(parser)),
        matcher_grammar(*final(parser)) == matcher_grammar(*old(parser)),
        matcher_tokens(*final(parser)) == matcher_tokens(*old(parser)).push(token),
{
    let _ = parser.consume_token(token);
}

/// `<Matcher as Clone>::clone` gives a matcher of the same factory, with the same
/// grammar and tokens.
#[verifier::external_body]
fn clone_parser(parser: &llguidance::Matcher) -> (copy: llguidance::Matcher)
    ensures
        matcher_factory(copy) == matcher_factory(*parser),
        matcher_grammar(copy) == matcher_grammar(*parser),
        matcher_tokens(copy) == matcher_tokens(*parser),
{
    parser.clone()
}

/// The bits of a mask over `vocab_size` tokens: those that occur among the
/// `entries`, or all of them where there are no entries to go by.
pub open spec fn mask_of(entries: Option<Seq<usize>>, vocab_size: nat) -> Seq<bool> {
    match entries {
        Some(e) => Seq::new(vocab_size, |i: int| e.contains(i as usize)),
        None => Seq::new(vocab_size, |i: int| true),
    }
}

/// The mask for what a parser allows. Entries beyond the vocabulary are left
/// out, and where the parser failed every token is allowed.
pub fn build_mask(entries: &Option<Vec<usize>>, vocab_size: usize) -> (mask: LogitMask)
    ensures
        sampling::mask_bits(mask) == mask_of(
            match entries {
                Some(e) => Some(e@),
                None => None,
            },
            vocab_size as nat,
        ),
{
    let mut mask: LogitMask = mask_from_elem(false, vocab_size);
    match entries {
        Some(e) => {
            let mut k: usize = 0;
            while k < e.len()
                invariant
                    k <= e@.len(),
                    sampling::mask_bits(mask) =~= Seq::new(
                        vocab_size as nat,
                        |i: int| e@.take(k as int).contains(i as usize),
                    ),
                decreases e@.len() - k,
            {
                let idx: usize = e[k];
                let ghost before = e@.take(k as int);
                let ghost after = e@.take(k as int + 1);
                proof {
                    assert(after =~= before.push(idx));
                    assert forall|i: int| 0 <= i < vocab_size implies (#[trigger] after.contains(
                        i as usize,
                    ) <==> before.contains(i as usize) || i == idx) by {
                        if before.contains(i as usize) {
                            let j = before.index_of(i as usize);
                            assert(after[j] == i as usize);
                        }
                        if i == idx {
                            assert(after[k as int] == idx);
                        }
                        if after.contains(i as usize) && i != idx {
                            let j = after.index_of(i as usize);
                            assert(before[j] == i as usize);
                        }
                    }
                }
                if idx < vocab_size {
                    mask_set(&mut mask, idx, true);
                }
                k = k + 1;
            }
            assert(e@.take(k as int) =~= e@);
        },
        None => {
            mask_set_all(&mut mask, true);
        },
    }
    mask
}

impl LlguidanceMatcher {
    /// The number of tokens that masks cover.
    pub closed spec fn vocab(&self) -> usize {
        self.vocab_size
    }

    /// The factory that compiled the grammar.
    pub closed spec fn compiled_by(&self) -> ParserFactory {
        matcher_factory(self.parser)
    }

    /// The tokens that the matcher was advanced by, in order.
    pub closed spec fn fed(&self) -> Seq<TokenId> {
        matcher_tokens(self.parser)
    }

    /// The grammar that is matched.
    pub closed spec fn grammar(&self) -> TopLevelGrammar {
        matcher_grammar(self.parser)
    }

    /// A matcher at the start of `grammar`. Whether the grammar can be compiled
    /// is the parser's to say.
    pub fn new(factory: &ParserFactory, grammar: TopLevelGrammar, vocab_size: usize) -> (r: Result<
        Self,
        String,
    >)
        ensures
            r is Ok ==> r->Ok_0.fed() == Seq::<TokenId>::empty() && r->Ok_0.grammar() == grammar
                && r->Ok_0.vocab() == vocab_size && r->Ok_0.compiled_by() == *factory,
    {
        LlguidanceMatcher::from_parser(create_parser(factory, grammar), vocab_size)
    }

    /// The matcher that goes by a compiled grammar, or the reason why there is
    /// none.
    pub fn from_parser(compiled: Result<llguidance::Matcher, String>, vocab_size: usize) -> (r:
        Result<Self, String>)
        ensures
            match compiled {
                Ok(parser) => {
                    &&& r is Ok
                    &&& r->Ok_0.vocab() == vocab_size
                    &&& r->Ok_0.compiled_by() == matcher_factory(parser)
                    &&& r->Ok_0.grammar() == matcher_grammar(parser)
                    &&& r->Ok_0.fed() == matcher_tokens(parser)
                },
                Err(e) => r == Err::<Self, String>(e),
            },
    {
        match compiled {
            Ok(parser) => Ok(LlguidanceMatcher { parser, vocab_size }),
            Err(e) => Err(e),
        }
    }

    /// A matcher for a constraint over the whole vocabulary of the factory.
    pub fn for_constraint(factory: &ParserFactory, constraint: Constraint) -> (r: Result<
        Self,
        String,
    >)
        ensures
            r is Ok ==> r->Ok_0.fed() == Seq::<TokenId>::empty() && r->Ok_0.grammar()
                == grammar_for(constraint) && r->Ok_0.vocab() == factory_words(*factory).len()
                && r->Ok_0.compiled_by() == *factory,
    {
        let vocab_size: usize = factory_vocab_size(factory);
        LlguidanceMatcher::new(factory, grammar_of(constraint), vocab_size)
    }
}

/// What generation goes by once the grammar of a constraint was compiled: the
/// matcher, or nothing where the compilation failed.
pub fn constrained_by(compiled: Result<LlguidanceMatcher, String>) -> (m: Option<LlguidanceMatcher>)
    ensures
        m == (match compiled {
            Ok(matcher) => Some(matcher),
            Err(_) => None,
        }),
{
    match compiled {
        Ok(matcher) => Some(matcher),
        Err(_) => None,
    }
}

/// Whether a mask over `vocab` tokens may be given after some tokens: it holds
/// what the grammar allows, or every token where the parser fails.
pub open spec fn gives_mask(
    factory: ParserFactory,
    grammar: TopLevelGrammar,
    vocab: nat,
    tokens: Seq<TokenId>,
    mask: LogitMask,
) -> bool {
    ||| sampling::mask_bits(mask) == mask_of(Some(allowed_tokens(factory, grammar, tokens)), vocab)
    ||| sampling::mask_bits(mask) == mask_of(None, vocab)
}

/// The masks that may be given after which tokens of a grammar.
pub open spec fn masks_by(factory: ParserFactory, grammar: TopLevelGrammar, vocab: nat) -> spec_fn(
    Seq<TokenId>,
    LogitMask,
) -> bool {
    |tokens: Seq<TokenId>, mask: LogitMask| gives_mask(factory, grammar, vocab, tokens, mask)
}

impl CfgMatcher for LlguidanceMatcher {
    open spec fn guided(&self) -> Guidance {
        Guidance {
            tokens: self.fed(),
            masks: masks_by(self.compiled_by(), self.grammar(), self.vocab() as nat),
        }
    }

    /// The tokens that the grammar allows next, or all where the parser fails.
    fn next_mask(&mut self) -> (mask: LogitMask)
        ensures
            final(self).vocab() == old(self).vocab(),
            final(self).compiled_by() == old(self).compiled_by(),
            final(self).grammar() == old(self).grammar(),
            final(self).fed() == old(self).fed(),
            gives_mask(
                old(self).compiled_by(),
                old(self).grammar(),
                old(self).vocab() as nat,
                old(self).fed(),
                mask,
            ),
    {
        let entries: Option<Vec<usize>> = allowed_entries(&mut self.parser);
        build_mask(&entries, self.vocab_size)
    }

    fn advance(&mut self, token: TokenId)
        ensures
            final(self).vocab() == old(self).vocab(),
            final(self).compiled_by() == old(self).compiled_by(),
            final(self).grammar() == old(self).grammar(),
            final(self).fed() == old(self).fed().push(token),
    {
        consume(&mut self.parser, token);
        assert(old(self).fed().push(token) =~= old(self).fed() + seq![token]);
    }

    fn clone_box(&self) -> (copy: Box<Self>)
        ensures
            copy.vocab() == self.vocab(),
            copy.compiled_by() == self.compiled_by(),
            copy.grammar() == self.grammar(),
            copy.fed() == self.fed(),
    {
        Box::new(
            LlguidanceMatcher {
                parser: clone_parser(&self.parser),
                vocab_size: self.vocab_size,
            },
        )
    }
}


/// A mask allows a token exactly where an entry names it, and every token where there are
/// no entries to go by.
pub proof fn masks_allow_what_is_listed(entries: Seq<usize>, vocab_size: nat, k: int, token: usize)
    requires
        token < vocab_size,
    ensures
        mask_of(Some(entries), vocab_size).len() == vocab_size,
        mask_of(None, vocab_size).len() == vocab_size,
        mask_of(None, vocab_size)[token as int],
        0 <= k < entries.len() && entries[k] == token ==> mask_of(Some(entries), vocab_size)[token as int],
        (forall|i: int| 0 <= i < entries.len() ==> #[trigger] entries[i] != token) ==> !mask_of(
            Some(entries),
            vocab_size,
        )[token as int],
{
}
} // verus!
