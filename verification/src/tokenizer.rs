//! Tokenization and vocabulary mapping.

use vstd::prelude::*;
use vstd::string::*;
use crate::chat_template;
use crate::gguf;
use crate::gguf::{FileModel, GgufFile, GgufValue, ScalarModel, ValueModel};
use crate::model_loader;
use crate::table::Table;
use crate::text::characters;

verus! {

/// The words of a vocabulary, and the number under which each is found.
struct Vocab {
    tokens: Vec<String>,
    numbers: Vec<u32>,
    token_to_id: Table<u32>,
    /// No word has more characters.
    longest: usize,
}

/// A tokenizer as seen from outside.
pub struct TokenizerModel {
    pub tokens: Seq<Seq<char>>,
    pub ids: Map<Seq<char>, u32>,
    pub chat_template: Option<Seq<char>>,
}

/// The texts of some strings.
pub open spec fn words(v: Seq<String>) -> Seq<Seq<char>> {
    v.map_values(|s: String| s@)
}

/// The number of each word: the last one where a word comes twice.
pub open spec fn numbered(tokens: Seq<Seq<char>>, numbers: Seq<u32>) -> Map<Seq<char>, u32>
    decreases tokens.len(),
{
    if tokens.len() == 0 {
        Map::empty()
    } else {
        numbered(tokens.drop_last(), numbers.drop_last()).insert(tokens.last(), numbers.last())
    }
}

impl Vocab {
    #[verifier::type_invariant]
    spec fn consistent(&self) -> bool {
        &&& self.tokens@.len() == self.numbers@.len()
        &&& self.token_to_id@ == numbered(words(self.tokens@), self.numbers@)
        &&& forall|i: int| 0 <= i < self.tokens@.len() ==> (#[trigger] self.tokens@[i])@.len()
            <= self.longest
    }

    fn empty() -> (v: Self)
        ensures
            v.tokens@.len() == 0,
            v.numbers@.len() == 0,
    {
        let tokens: Vec<String> = Vec::new();
        let numbers: Vec<u32> = Vec::new();
        let token_to_id: Table<u32> = Table::new();
        assert(words(tokens@).len() == 0);
        Vocab { tokens, numbers, token_to_id, longest: 0 }
    }

    /// Adds a word under a number.
    fn add_word(&mut self, word: String, number: u32)
        ensures
            words(final(self).tokens@) == words(old(self).tokens@).push(word@),
            final(self).numbers@ == old(self).numbers@.push(number),
    {
        let mut whole = Vocab::empty();
        std::mem::swap(self, &mut whole);
        proof {
            use_type_invariant(&whole);
        }
        let Vocab { mut tokens, mut numbers, mut token_to_id, longest } = whole;
        let ghost tokens0 = tokens@;
        let ghost numbers0 = numbers@;
        let len: usize = word.as_str().unicode_len();
        let most: usize = if len > longest {
            len
        } else {
            longest
        };
        token_to_id.insert(word.clone(), number);
        tokens.push(word);
        numbers.push(number);
        proof {
            assert(words(tokens@) =~= words(tokens0).push(word@));
            assert(words(tokens@).drop_last() =~= words(tokens0));
            assert(numbers@.drop_last() =~= numbers0);
        }
        *self = Vocab { tokens, numbers, token_to_id, longest: most };
    }

    fn copy(&self) -> (v: Self)
        ensures
            words(v.tokens@) == words(self.tokens@),
            v.numbers@ == self.numbers@,
    {
        proof {
            use_type_invariant(self);
        }
        let mut v = Vocab::empty();
        let mut i: usize = 0;
        assert(words(v.tokens@) =~= words(self.tokens@.take(0)));
        while i < self.tokens.len()
            invariant
                i <= self.tokens@.len() == self.numbers@.len(),
                words(v.tokens@) == words(self.tokens@.take(i as int)),
                v.numbers@ == self.numbers@.take(i as int),
            decreases self.tokens@.len() - i,
        {
            v.add_word(self.tokens[i].clone(), self.numbers[i]);
            i = i + 1;
            assert(words(self.tokens@.take(i as int)) =~= words(self.tokens@.take(i - 1)).push(
                self.tokens@[i - 1]@,
            ));
            assert(self.numbers@.take(i as int) =~= self.numbers@.take(i - 1).push(
                self.numbers@[i - 1],
            ));
        }
        assert(self.tokens@.take(i as int) =~= self.tokens@);
        assert(self.numbers@.take(i as int) =~= self.numbers@);
        v
    }
}

/// A simple tokenizer that uses the vocabulary from a GGUF file.
pub struct Tokenizer {
    vocab: Vocab,
    pub chat_template: Option<String>,
}

/// The text of an optional string.
pub open spec fn opt_text(s: Option<String>) -> Option<Seq<char>> {
    match s {
        Some(s) => Some(s@),
        None => None,
    }
}

impl View for Tokenizer {
    type V = TokenizerModel;

    closed spec fn view(&self) -> TokenizerModel {
        TokenizerModel {
            tokens: words(self.vocab.tokens@),
            ids: numbered(words(self.vocab.tokens@), self.vocab.numbers@),
            chat_template: opt_text(self.chat_template),
        }
    }
}

/// The strings of a list, and for each its place in the list.
pub open spec fn strings_of(v: Seq<ScalarModel>, n: nat) -> (Seq<Seq<char>>, Seq<u32>)
    decreases n,
{
    if n == 0 {
        (Seq::empty(), Seq::empty())
    } else {
        let (tokens, numbers) = strings_of(v, (n - 1) as nat);
        match v[n - 1] {
            ScalarModel::Text(s) => (tokens.push(s), numbers.push((n - 1) as u32)),
            _ => (tokens, numbers),
        }
    }
}

/// The tokenizer that a file describes.
pub open spec fn tokenizer_of(f: FileModel) -> TokenizerModel {
    let v = model_loader::or_else(
        model_loader::list_under(f.metadata, "tokenizer.ggml.tokens"@),
        Seq::empty(),
    );
    let (tokens, numbers) = strings_of(v, v.len());
    TokenizerModel {
        tokens,
        ids: numbered(tokens, numbers),
        chat_template: model_loader::text_under(f.metadata, "tokenizer.chat_template"@),
    }
}

/// How many characters the longest word has that `text` starts with, if it has
/// at most `n`; zero if there is none.
pub open spec fn longest_match(ids: Map<Seq<char>, u32>, text: Seq<char>, n: nat) -> nat
    decreases n,
{
    if n == 0 {
        0
    } else if ids.contains_key(text.take(n as int)) {
        n
    } else {
        longest_match(ids, text, (n - 1) as nat)
    }
}

/// The greedy tokenization: at each place the longest word that matches; a
/// character that starts no word is skipped.
pub open spec fn encoded(ids: Map<Seq<char>, u32>, text: Seq<char>) -> Seq<u32>
    decreases text.len(),
{
    if text.len() == 0 {
        Seq::empty()
    } else {
        let k = longest_match(ids, text, text.len());
        if k == 0 {
            encoded(ids, text.skip(1))
        } else if k <= text.len() {
            seq![ids[text.take(k as int)]] + encoded(ids, text.skip(k as int))
        } else {
            Seq::empty()
        }
    }
}

/// The words of some numbers, after each other. A number beyond the vocabulary
/// stands for nothing.
pub open spec fn decoded(tokens: Seq<Seq<char>>, ids: Seq<u32>) -> Seq<char>
    decreases ids.len(),
{
    if ids.len() == 0 {
        Seq::empty()
    } else {
        let head = decoded(tokens, ids.drop_last());
        if ids.last() < tokens.len() {
            head + tokens[ids.last() as int]
        } else {
            head
        }
    }
}

/// A match is no longer than what was asked for, and it is one.
proof fn lemma_longest_match(ids: Map<Seq<char>, u32>, text: Seq<char>, n: nat)
    ensures
        longest_match(ids, text, n) <= n,
        longest_match(ids, text, n) > 0 ==> ids.contains_key(
            text.take(longest_match(ids, text, n) as int),
        ),
    decreases n,
{
    if n > 0 {
        lemma_longest_match(ids, text, (n - 1) as nat);
    }
}

/// Where no word is longer than `most`, longer prefixes need not be tried.
proof fn lemma_match_below(ids: Map<Seq<char>, u32>, text: Seq<char>, most: nat, n: nat)
    requires
        most <= n <= text.len(),
        forall|k: Seq<char>| #[trigger] ids.contains_key(k) ==> k.len() <= most,
    ensures
        longest_match(ids, text, n) == longest_match(ids, text, most),
    decreases n,
{
    if n > most {
        lemma_match_below(ids, text, most, (n - 1) as nat);
    }
}

proof fn lemma_numbered_keys(tokens: Seq<Seq<char>>, numbers: Seq<u32>, most: nat)
    requires
        tokens.len() == numbers.len(),
        forall|i: int| 0 <= i < tokens.len() ==> (#[trigger] tokens[i]).len() <= most,
    ensures
        forall|k: Seq<char>| #[trigger]
            numbered(tokens, numbers).contains_key(k) ==> k.len() <= most,
    decreases tokens.len(),
{
    if tokens.len() > 0 {
        assert forall|i: int| 0 <= i < tokens.drop_last().len() implies (
        #[trigger] tokens.drop_last()[i]).len() <= most by {
            assert(tokens[i].len() <= most);
        }
        lemma_numbered_keys(tokens.drop_last(), numbers.drop_last(), most);
        assert(tokens[tokens.len() - 1].len() <= most);
        let before = numbered(tokens.drop_last(), numbers.drop_last());
        assert forall|k: Seq<char>| #[trigger]
            numbered(tokens, numbers).contains_key(k) implies k.len() <= most by {
            if k != tokens.last() {
                assert(before.contains_key(k));
            }
        }
    }
}

/// The text of the characters from `start` to `end`.
fn text_of(v: &Vec<char>, start: usize, end: usize) -> (s: String)
    requires
        start <= end <= v@.len(),
    ensures
        s@ == v@.subrange(start as int, end as int),
{
    let mut s = String::new();
    let mut i: usize = start;
    while i < end
        invariant
            start <= i <= end <= v@.len(),
            s@ == v@.subrange(start as int, i as int),
        decreases end - i,
    {
        s.push(v[i]);
        i = i + 1;
        assert(s@ =~= v@.subrange(start as int, i as int));
    }
    s
}

/// What minijinja makes of a template, given the messages and whether the
/// prompt of a reply is asked for: the text, or the text of its error.
pub uninterp spec fn chat_rendering(
    template: Seq<char>,
    messages: Seq<serde_json::Value>,
    add_generation_prompt: bool,
) -> Result<Seq<char>, Seq<char>>;

/// `Environment::add_template`, `Environment::get_template` and
/// `Template::render` of minijinja, with the variables `messages`, the list of
/// documents as `Value::from_serialize` gives it, and `add_generation_prompt`. What
/// comes out depends on these alone. On a template that is not supported the engine
/// may panic: when it reverses something empty, takes a size that is too large,
/// repeats a list too often, is given no choices or a divisor of zero, sorts by an
/// order that is none, calls a macro that is gone, or counts more columns than it
/// can. On any other template it returns, given the memory and the stack that it
/// needs.
#[verifier::external_body]
fn render_chat(template: &str, messages: &[serde_json::Value], add_generation_prompt: bool) -> (r:
    Result<String, String>)
    requires
        chat_template::supported(template@),
    ensures
        match chat_rendering(template@, messages@, add_generation_prompt) {
            Ok(s) => r is Ok && r->Ok_0@ == s,
            Err(e) => r is Err && r->Err_0@ == e,
        },
{
    let mut env = minijinja::Environment::new();
    env.add_template("chat", template).map_err(|e| e.to_string())?;
    let chat = env.get_template("chat").map_err(|e| e.to_string())?;
    let list = minijinja::Value::from_serialize(messages);
    let asked = minijinja::Value::from(add_generation_prompt);
    let vars = minijinja::Value::from_iter([("messages", list), ("add_generation_prompt", asked)]);
    chat.render(vars).map_err(|e| e.to_string())
}

/// The prompt that comes of a template: what the template engine makes of it, if it
/// is supported.
pub open spec fn chat_prompt(
    template: Seq<char>,
    messages: Seq<serde_json::Value>,
    add_generation_prompt: bool,
) -> Result<Seq<char>, Seq<char>> {
    if chat_template::supported(template) {
        chat_rendering(template, messages, add_generation_prompt)
    } else {
        Err("chat template is not supported"@)
    }
}

impl Tokenizer {
    /// A tokenizer whose words are numbered in order.
    pub fn new(tokens: Vec<String>, chat_template: Option<String>) -> (t: Self)
        ensures
            t@.tokens == words(tokens@),
            t@.ids == numbered(words(tokens@), Seq::new(tokens@.len(), |i: int| i as u32)),
            t@.chat_template == opt_text(chat_template),
    {
        let mut vocab = Vocab::empty();
        let mut i: usize = 0;
        assert(words(vocab.tokens@) =~= words(tokens@.take(0)));
        assert(vocab.numbers@ =~= Seq::new(0, |i: int| i as u32));
        while i < tokens.len()
            invariant
                i <= tokens@.len(),
                words(vocab.tokens@) == words(tokens@.take(i as int)),
                vocab.numbers@ == Seq::new(i as nat, |i: int| i as u32),
            decreases tokens@.len() - i,
        {
            vocab.add_word(tokens[i].clone(), i as u32);
            i = i + 1;
            assert(words(tokens@.take(i as int)) =~= words(tokens@.take(i - 1)).push(
                tokens@[i - 1]@,
            ));
            assert(vocab.numbers@ =~= Seq::new(i as nat, |i: int| i as u32));
        }
        assert(tokens@.take(i as int) =~= tokens@);
        Tokenizer { vocab, chat_template }
    }

    /// Creates a new tokenizer from a GGUF file's metadata. Values among the
    /// tokens that are not strings are left out, but take a number.
    pub fn from_gguf(file: &GgufFile) -> (t: Self)
        ensures
            t@ == tokenizer_of(file@),
    {
        let mut vocab = Vocab::empty();
        let listed: Option<&[GgufValue]> = match file.metadata.get("tokenizer.ggml.tokens") {
            Some(v) => v.as_array(),
            None => None,
        };
        let ghost v = model_loader::or_else(
            model_loader::list_under(file@.metadata, "tokenizer.ggml.tokens"@),
            Seq::empty(),
        );
        assert(words(vocab.tokens@) =~= strings_of(v, 0).0);
        assert(vocab.numbers@ =~= strings_of(v, 0).1);
        match listed {
            None => {
                assert(v.len() == 0);
            },
            Some(token_array) => {
                assert(v == gguf::scalars(token_array@));
                let mut id: usize = 0;
                while id < token_array.len()
                    invariant
                        id <= token_array@.len(),
                        v == gguf::scalars(token_array@),
                        words(vocab.tokens@) == strings_of(v, id as nat).0,
                        vocab.numbers@ == strings_of(v, id as nat).1,
                    decreases token_array@.len() - id,
                {
                    match token_array[id].as_str() {
                        Some(s) => {
                            vocab.add_word(String::from_str(s), id as u32);
                        },
                        None => {},
                    }
                    id = id + 1;
                }
            },
        }
        let template: Option<&str> = match file.metadata.get("tokenizer.chat_template") {
            Some(v) => v.as_str(),
            None => None,
        };
        let chat_template: Option<String> = match template {
            Some(s) => Some(String::from_str(s)),
            None => None,
        };
        Tokenizer { vocab, chat_template }
    }

    /// The number of words.
    pub fn vocab_size(&self) -> (n: usize)
        ensures
            n == self@.tokens.len(),
    {
        self.vocab.tokens.len()
    }

    /// The word at a place.
    pub fn token_at(&self, i: usize) -> (s: &str)
        requires
            i < self@.tokens.len(),
        ensures
            s@ == self@.tokens[i as int],
    {
        self.vocab.tokens[i].as_str()
    }

    /// The word of a number.
    pub fn id_to_token(&self, id: u32) -> (s: &str)
        requires
            id < self@.tokens.len(),
        ensures
            s@ == self@.tokens[id as int],
    {
        self.vocab.tokens[id as usize].as_str()
    }

    /// Encodes a string into a sequence of token IDs using naive greedy longest-match.
    pub fn encode(&self, text: &str) -> (result: Vec<u32>)
        ensures
            result@ == encoded(self@.ids, text@),
    {
        proof {
            use_type_invariant(&self.vocab);
        }
        let chars: Vec<char> = characters(text);
        let total: usize = chars.len();
        let longest: usize = self.vocab.longest;
        let ghost ids = self@.ids;
        proof {
            let all = words(self.vocab.tokens@);
            assert forall|i: int| 0 <= i < all.len() implies (#[trigger] all[i]).len()
                <= longest by {
                assert(self.vocab.tokens@[i]@.len() <= longest);
            }
            lemma_numbered_keys(all, self.vocab.numbers@, longest as nat);
        }
        let mut result: Vec<u32> = Vec::new();
        let mut at: usize = 0;
        assert(text@.skip(0) =~= text@);
        assert(result@ + encoded(ids, text@) =~= encoded(ids, text@));
        while at < total
            invariant
                at <= total == chars@.len(),
                chars@ == text@,
                ids == self.vocab.token_to_id@,
                forall|k: Seq<char>| #[trigger] ids.contains_key(k) ==> k.len() <= longest,
                result@ + encoded(ids, text@.skip(at as int)) == encoded(ids, text@),
            decreases total - at,
        {
            let ghost rest = text@.skip(at as int);
            let left: usize = total - at;
            let mut i: usize = if left < longest {
                left
            } else {
                longest
            };
            proof {
                if longest <= left {
                    lemma_match_below(ids, rest, i as nat, rest.len());
                }
            }
            let ghost start = result@;
            let mut found: Option<u32> = None;
            while i > 0 && found.is_none()
                invariant
                    at + i <= total,
                    total == chars@.len(),
                    chars@ == text@,
                    rest == text@.skip(at as int),
                    ids == self.vocab.token_to_id@,
                    found is None ==> longest_match(ids, rest, rest.len()) == longest_match(
                        ids,
                        rest,
                        i as nat,
                    ),
                    found is Some ==> i > 0 && longest_match(ids, rest, rest.len()) == i && found
                        == Some(ids[rest.take(i as int)]),
                decreases i, (if found is None { 1int } else { 0 }),
            {
                let sub: String = text_of(&chars, at, at + i);
                assert(sub@ =~= rest.take(i as int));
                match self.vocab.token_to_id.get(sub.as_str()) {
                    Some(id) => {
                        found = Some(*id);
                    },
                    None => {
                        i = i - 1;
                    },
                }
            }
            match found {
                Some(id) => {
                    result.push(id);
                    assert(rest.skip(i as int) =~= text@.skip(at + i));
                    assert(result@ + encoded(ids, text@.skip(at + i)) =~= start + (seq![id]
                        + encoded(ids, text@.skip(at + i))));
                    at = at + i;
                },
                None => {
                    assert(rest.skip(1) =~= text@.skip(at + 1));
                    at = at + 1;
                },
            }
        }
        assert(text@.skip(at as int).len() == 0);
        assert(result@ + Seq::<u32>::empty() =~= result@);
        result
    }

    /// Decodes a sequence of token IDs back into a string.
    pub fn decode(&self, tokens: &[u32]) -> (result: String)
        ensures
            result@ == decoded(self@.tokens, tokens@),
    {
        let mut result = String::new();
        let mut i: usize = 0;
        while i < tokens.len()
            invariant
                i <= tokens@.len(),
                result@ == decoded(self@.tokens, tokens@.take(i as int)),
            decreases tokens@.len() - i,
        {
            let id: u32 = tokens[i];
            if (id as u64) < self.vocab.tokens.len() as u64 {
                result.append(self.vocab.tokens[id as usize].as_str());
            }
            i = i + 1;
            assert(tokens@.take(i as int).drop_last() =~= tokens@.take(i - 1));
        }
        assert(tokens@.take(i as int) =~= tokens@);
        result
    }

    /// The prompt that the chat template makes of a conversation. A template that is
    /// not supported is refused.
    pub fn apply_chat_template(
        &self,
        messages: &[serde_json::Value],
        add_generation_prompt: bool,
    ) -> (r: Result<String, String>)
        ensures
            match chat_prompt(
                model_loader::or_else(self@.chat_template, chat_template::default_template()),
                messages@,
                add_generation_prompt,
            ) {
                Ok(s) => r is Ok && r->Ok_0@ == s,
                Err(e) => r is Err && r->Err_0@ == e,
            },
    {
        match &self.chat_template {
            Some(template) => {
                if chat_template::is_supported(template.as_str()) {
                    render_chat(template.as_str(), messages, add_generation_prompt)
                } else {
                    Err(String::from_str("chat template is not supported"))
                }
            },
            None => {
                proof {
                    chat_template::default_template_is_supported();
                }
                render_chat(
                    "{% for message in messages %}<|im_start|>{{ message.role }}\n{{ message.content }}<|im_end|>\n{% endfor %}{% if add_generation_prompt %}<|im_start|>assistant\n{% endif %}",
                    messages,
                    add_generation_prompt,
                )
            },
        }
    }
}

impl Clone for Tokenizer {
    fn clone(&self) -> (t: Self)
        ensures
            t@ == self@,
    {
        let chat_template: Option<String> = match &self.chat_template {
            Some(s) => Some(s.clone()),
            None => None,
        };
        Tokenizer { vocab: self.vocab.copy(), chat_template }
    }
}

/// The words of the small vocabulary: three markers, the printable characters
/// of ASCII, and three longer words.
pub open spec fn dummy_words() -> Seq<Seq<char>> {
    seq!["<unk>"@, "<s>"@, "</s>"@] + Seq::new(95, |i: int| seq![(32 + i) as char]) + seq![
        "name"@,
        "age"@,
        "alice"@,
    ]
}

/// A small tokenizer to try things out with.
pub fn dummy_tokenizer() -> (t: Tokenizer)
    ensures
        t@.tokens == dummy_words(),
        t@.ids == numbered(dummy_words(), Seq::new(dummy_words().len(), |i: int| i as u32)),
        t@.chat_template is None,
{
    let mut tokens: Vec<String> = Vec::new();
    tokens.push(String::from_str("<unk>"));
    tokens.push(String::from_str("<s>"));
    tokens.push(String::from_str("</s>"));
    let ghost marks = seq!["<unk>"@, "<s>"@, "</s>"@];
    let ghost letter = |i: int| seq![(32 + i) as char];
    let mut c: u8 = 32;
    assert(words(tokens@) =~= marks + Seq::new(0, letter));
    while c < 127
        invariant
            32 <= c <= 127,
            letter == (|i: int| seq![(32 + i) as char]),
            words(tokens@) == marks + Seq::new((c - 32) as nat, letter),
        decreases 127 - c,
    {
        let ghost before = tokens@;
        let mut s = String::new();
        s.push(c as char);
        assert(s@ =~= letter(c - 32));
        tokens.push(s);
        c = c + 1;
        assert(words(tokens@) =~= words(before).push(s@));
        assert(words(tokens@) =~= marks + Seq::new((c - 32) as nat, letter));
    }
    tokens.push(String::from_str("name"));
    tokens.push(String::from_str("age"));
    tokens.push(String::from_str("alice"));
    assert(words(tokens@) =~= dummy_words());
    Tokenizer::new(tokens, None)
}

/// What is decoded piece by piece is decoded as a whole.
pub proof fn decoding_concatenates(tokens: Seq<Seq<char>>, a: Seq<u32>, b: Seq<u32>)
    ensures
        decoded(tokens, a + b) == decoded(tokens, a) + decoded(tokens, b),
    decreases b.len(),
{
    if b.len() == 0 {
        assert(a + b =~= a);
        assert(decoded(tokens, a) + decoded(tokens, b) =~= decoded(tokens, a));
    } else {
        decoding_concatenates(tokens, a, b.drop_last());
        assert((a + b).drop_last() =~= a + b.drop_last());
        assert(decoded(tokens, a + b) =~= decoded(tokens, a) + decoded(tokens, b));
    }
}

/// Whether every number leads back to its word.
pub open spec fn reversible(tokens: Seq<Seq<char>>, ids: Map<Seq<char>, u32>) -> bool {
    forall|k: Seq<char>| #[trigger]
        ids.contains_key(k) ==> ids[k] < tokens.len() && tokens[ids[k] as int] == k
}

/// Whether every character of a text is a word.
pub open spec fn spellable(ids: Map<Seq<char>, u32>, text: Seq<char>) -> bool {
    forall|i: int| 0 <= i < text.len() ==> ids.contains_key(seq![#[trigger] text[i]])
}

/// A text whose every character is a word comes back from its tokens.
pub proof fn encoding_is_undone_by_decoding(
    tokens: Seq<Seq<char>>,
    ids: Map<Seq<char>, u32>,
    text: Seq<char>,
)
    requires
        reversible(tokens, ids),
        spellable(ids, text),
    ensures
        decoded(tokens, encoded(ids, text)) == text,
    decreases text.len(),
{
    if text.len() > 0 {
        let k = longest_match(ids, text, text.len());
        lemma_longest_match(ids, text, text.len());
        lemma_matches_at_least(ids, text, 1, text.len());
        let rest = text.skip(k as int);
        assert forall|i: int| 0 <= i < rest.len() implies ids.contains_key(
            seq![#[trigger] rest[i]],
        ) by {
            assert(rest[i] == text[i + k]);
        }
        encoding_is_undone_by_decoding(tokens, ids, rest);
        let head = seq![ids[text.take(k as int)]];
        decoding_concatenates(tokens, head, encoded(ids, rest));
        assert(head.drop_last() =~= Seq::<u32>::empty());
        assert(decoded(tokens, head.drop_last()) =~= Seq::<char>::empty());
        assert(ids.contains_key(text.take(k as int)));
        assert(decoded(tokens, head) =~= text.take(k as int));
        assert(text.take(k as int) + rest =~= text);
    }
}

/// A word that matches is a lower bound for the longest match.
proof fn lemma_matches_at_least(ids: Map<Seq<char>, u32>, text: Seq<char>, k: nat, n: nat)
    requires
        1 <= k <= n <= text.len(),
        k == 1 ==> ids.contains_key(seq![text[0]]),
        k > 1 ==> ids.contains_key(text.take(k as int)),
    ensures
        longest_match(ids, text, n) >= k,
    decreases n,
{
    assert(text.take(1) =~= seq![text[0]]);
    if n > k {
        lemma_matches_at_least(ids, text, k, (n - 1) as nat);
    }
}

/// Words that are numbered in order lead back to themselves: a word that occurs
/// twice has the number of its last place.
pub proof fn numbered_words_are_reversible(tokens: Seq<Seq<char>>)
    requires
        tokens.len() <= u32::MAX,
    ensures
        reversible(tokens, numbered(tokens, Seq::new(tokens.len(), |i: int| i as u32))),
    decreases tokens.len(),
{
    let numbers = Seq::new(tokens.len(), |i: int| i as u32);
    if tokens.len() > 0 {
        let fewer = tokens.drop_last();
        numbered_words_are_reversible(fewer);
        assert(numbers.drop_last() =~= Seq::new(fewer.len(), |i: int| i as u32));
        let ids = numbered(tokens, numbers);
        let before = numbered(fewer, numbers.drop_last());
        assert forall|k: Seq<char>| #[trigger] ids.contains_key(k) implies ids[k] < tokens.len()
            && tokens[ids[k] as int] == k by {
            if k != tokens.last() {
                assert(before.contains_key(k));
                assert(fewer[before[k] as int] == tokens[before[k] as int]);
            }
        }
    }
}

/// The match is the longest one: its text is a word, and no longer start of the text,
/// within the limit, is.
pub proof fn matches_are_the_longest(ids: Map<Seq<char>, u32>, text: Seq<char>, n: nat)
    ensures
        ({
            let k = longest_match(ids, text, n);
            &&& k <= n
            &&& k > 0 ==> ids.contains_key(text.take(k as int))
            &&& forall|m: int| k < m <= n ==> !ids.contains_key(#[trigger] text.take(m))
        }),
    decreases n,
{
    if n > 0 && !ids.contains_key(text.take(n as int)) {
        matches_are_the_longest(ids, text, (n - 1) as nat);
    }
}

/// A text that goes on behind a word, where no longer start of it is a word, is encoded
/// as that word and the rest.
pub proof fn the_longest_word_comes_first(ids: Map<Seq<char>, u32>, word: Seq<char>, rest: Seq<char>)
    requires
        word.len() > 0,
        ids.contains_key(word),
        forall|m: int|
            word.len() < m <= word.len() + rest.len() ==> !ids.contains_key(
                #[trigger] (word + rest).take(m),
            ),
    ensures
        encoded(ids, word + rest) == seq![ids[word]] + encoded(ids, rest),
{
    let text = word + rest;
    let n = word.len() as int;
    matches_are_the_longest(ids, text, text.len());
    let k = longest_match(ids, text, text.len());
    assert(text.take(n) =~= word);
    if k < n {
        assert(!ids.contains_key(text.take(n)));
    }
    assert(text.skip(n) =~= rest);
}

/// A number stands for its word, and for nothing beyond the vocabulary.
pub proof fn numbers_stand_for_their_words(tokens: Seq<Seq<char>>, id: u32)
    ensures
        id < tokens.len() ==> decoded(tokens, seq![id]) == tokens[id as int],
        id >= tokens.len() ==> decoded(tokens, seq![id]) == Seq::<char>::empty(),
{
    let ids = seq![id];
    assert(ids.drop_last() =~= Seq::<u32>::empty());
    assert(decoded(tokens, ids.drop_last()) =~= Seq::<char>::empty());
    if id < tokens.len() {
        assert(Seq::<char>::empty() + tokens[id as int] =~= tokens[id as int]);
    }
}

proof fn lemma_all_strings(v: Seq<ScalarModel>, n: nat)
    requires
        n <= v.len() <= u32::MAX,
        forall|i: int| 0 <= i < v.len() ==> #[trigger] v[i] is Text,
    ensures
        strings_of(v, n).0.len() == n,
        strings_of(v, n).1.len() == n,
        forall|i: int|
            0 <= i < n ==> #[trigger] strings_of(v, n).0[i] == v[i]->Text_0,
        forall|i: int| 0 <= i < n ==> #[trigger] strings_of(v, n).1[i] == i,
    decreases n,
{
    if n > 0 {
        lemma_all_strings(v, (n - 1) as nat);
        assert(v[n - 1] is Text);
    }
}

/// A file whose token list holds nothing but texts has these as its words, in their
/// order, and each leads back from its number; its template is the one that the file
/// states.
pub proof fn listed_tokens_are_the_words(f: FileModel, v: Seq<ScalarModel>, template: Seq<char>)
    requires
        f.metadata.contains_key("tokenizer.ggml.tokens"@),
        f.metadata["tokenizer.ggml.tokens"@] == ValueModel::Many(v),
        v.len() <= u32::MAX,
        forall|i: int| 0 <= i < v.len() ==> #[trigger] v[i] is Text,
    ensures
        ({
            let t = tokenizer_of(f);
            let key = "tokenizer.chat_template"@;
            &&& t.tokens.len() == v.len()
            &&& forall|i: int| 0 <= i < v.len() ==> #[trigger] t.tokens[i] == v[i]->Text_0
            &&& reversible(t.tokens, t.ids)
            &&& f.metadata.contains_key(key) && f.metadata[key] == ValueModel::One(
                ScalarModel::Text(template),
            ) ==> t.chat_template == Some(template)
            &&& !f.metadata.contains_key(key) ==> t.chat_template is None
        }),
{
    lemma_all_strings(v, v.len());
    let (tokens, numbers) = strings_of(v, v.len());
    assert(numbers =~= Seq::new(tokens.len(), |i: int| i as u32));
    numbered_words_are_reversible(tokens);
}


/// In the small vocabulary each printable character stands for itself, in their order
/// behind the three markers, and no word stands in two places.
pub proof fn printable_characters_are_words(i: int, j: int)
    requires
        0 <= i < j < dummy_words().len(),
    ensures
        dummy_words().len() == 101,
        3 <= i < 98 ==> dummy_words()[i] == seq![(29 + i) as char],
        dummy_words()[i] != dummy_words()[j],
{
    reveal_strlit("<unk>");
    reveal_strlit("<s>");
    reveal_strlit("</s>");
    reveal_strlit("name");
    reveal_strlit("age");
    reveal_strlit("alice");
    let w = dummy_words();
    assert(w.len() == 101);
    assert(w[0].len() == 5 && w[1].len() == 3 && w[2].len() == 4);
    assert(w[98].len() == 4 && w[99].len() == 3 && w[100].len() == 5);
    assert(w[0][0] == '<' && w[1][0] == '<' && w[2][0] == '<');
    assert(w[98][0] == 'n' && w[99][0] == 'a' && w[100][0] == 'a');
    assert(3 <= i < 98 ==> w[i] == seq![(29 + i) as char]);
    assert(3 <= j < 98 ==> w[j] == seq![(29 + j) as char]);
    if 3 <= i && j < 98 {
        assert(w[i][0] != w[j][0]);
    }
}
} // verus!
