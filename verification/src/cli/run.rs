//! `velo-run`: load a GGUF model and generate tokens from a prompt.

use vstd::prelude::*;
use vstd::string::*;
use crate::backend;
use crate::backend::{CausalLmBackend, TokenLogits};
use crate::cli;
use crate::cli::{argument_at, bytes_as_tokens};
use crate::radix_cache::TokenId;
use crate::sampling;
use crate::sampling::{GreedySampler, Sampler};
use crate::speculative::{NextTokenPrediction, SpeculativeError};
use crate::text;
use crate::text::{joined, read_usize, same_text, split, trim};

verus! {

pub const USAGE: &'static str = "Usage: velo-run --model <path> --token-ids <id,id,...> [--max-tokens <n>]
       velo-run --model <path> --prompt <text>          [--max-tokens <n>]

Options:
  --model       Path to a GGUF model file
  --token-ids   Comma-separated prompt token IDs (bypasses tokenizer)
  --prompt      Raw text prompt (naive byte-level tokenization; use --token-ids for accuracy)
  --max-tokens  Maximum new tokens to generate (default: 16)
";

#[derive(Debug)]
pub struct RunConfig {
    pub model: String,
    pub token_ids: Vec<TokenId>,
    pub max_tokens: usize,
}

/// What has been read of the arguments so far.
pub struct RunModel {
    pub model: Option<Seq<char>>,
    pub token_ids: Seq<TokenId>,
    pub max_tokens: usize,
}

/// The token ids that the first `n` pieces stand for, or the first piece that
/// stands for none.
pub open spec fn ids_of(pieces: Seq<Seq<char>>, n: nat) -> Result<Seq<TokenId>, Seq<char>>
    decreases n,
{
    if n == 0 {
        Ok(Seq::empty())
    } else {
        match ids_of(pieces, (n - 1) as nat) {
            Err(e) => Err(e),
            Ok(ids) => {
                let piece = text::trimmed_end(text::trimmed_start(pieces[n - 1]));
                if text::reads_as(piece, u32::MAX as nat) {
                    Ok(ids.push(text::numeral(piece)->0 as u32))
                } else {
                    Err("invalid token id: "@ + pieces[n - 1])
                }
            },
        }
    }
}

/// The token ids of a list with commas between them.
pub open spec fn listed_ids(s: Seq<char>) -> Result<Seq<TokenId>, Seq<char>> {
    let pieces = text::pieces_from(s, ',', 0, Seq::empty());
    ids_of(pieces, pieces.len())
}

proof fn lemma_bad_piece(pieces: Seq<Seq<char>>, a: nat, b: nat)
    requires
        a <= b,
        ids_of(pieces, a) is Err,
    ensures
        ids_of(pieces, b) == ids_of(pieces, a),
    decreases b,
{
    if a < b {
        lemma_bad_piece(pieces, a, (b - 1) as nat);
    }
}

/// Reads a list of token ids.
pub fn parse_token_ids(s: &str) -> (r: Result<Vec<TokenId>, String>)
    ensures
        match listed_ids(s@) {
            Ok(ids) => r is Ok && r->Ok_0@ == ids,
            Err(e) => r is Err && r->Err_0@ == e,
        },
{
    let pieces: Vec<String> = split(s, ',');
    let ghost all = text::texts(pieces@);
    let mut ids: Vec<TokenId> = Vec::new();
    let mut i: usize = 0;
    assert(ids@ =~= Seq::empty());
    while i < pieces.len()
        invariant
            i <= pieces@.len(),
            all == text::texts(pieces@),
            all == text::pieces_from(s@, ',', 0, Seq::empty()),
            ids_of(all, i as nat) == Ok::<Seq<TokenId>, Seq<char>>(ids@),
        decreases pieces@.len() - i,
    {
        let piece: &String = &pieces[i];
        assert(all[i as int] == piece@);
        let number: Result<usize, String> = read_usize(trim(piece.as_str()).as_str());
        match number {
            Ok(n) if n <= 0xFFFF_FFFF => {
                ids.push(n as u32);
            },
            _ => {
                proof {
                    lemma_bad_piece(all, (i + 1) as nat, all.len());
                }
                return Err(joined("invalid token id: ", piece.as_str()));
            },
        }
        i = i + 1;
    }
    Ok(ids)
}

/// The arguments from `i` on, after `s` was read.
pub open spec fn read_args(args: Seq<Seq<char>>, i: int, s: RunModel) -> Result<RunModel, Seq<char>>
    decreases args.len() - i,
{
    if i >= args.len() || i < 0 {
        Ok(s)
    } else {
        let value = cli::argument(args, i + 1);
        if args[i] == "--model"@ {
            match value {
                None => Err("--model requires a path"@),
                Some(v) => read_args(args, i + 2, RunModel { model: Some(v), ..s }),
            }
        } else if args[i] == "--token-ids"@ {
            match value {
                None => Err("--token-ids requires a value"@),
                Some(v) => match listed_ids(v) {
                    Err(e) => Err(e),
                    Ok(ids) => read_args(args, i + 2, RunModel { token_ids: ids, ..s }),
                },
            }
        } else if args[i] == "--prompt"@ {
            match value {
                None => Err("--prompt requires a value"@),
                Some(v) => read_args(
                    args,
                    i + 2,
                    RunModel { token_ids: cli::byte_tokens(v), ..s },
                ),
            }
        } else if args[i] == "--max-tokens"@ {
            match value {
                None => Err("--max-tokens requires a value"@),
                Some(v) => if text::reads_as(v, usize::MAX as nat) {
                    read_args(
                        args,
                        i + 2,
                        RunModel { max_tokens: text::numeral(v)->0 as usize, ..s },
                    )
                } else {
                    Err("--max-tokens must be a positive integer"@)
                },
            }
        } else {
            Err("unknown argument: "@ + args[i])
        }
    }
}

/// What a command line asks for, or what is wrong with it. The first argument is
/// the program's name.
pub open spec fn asked_for(args: Seq<Seq<char>>) -> Result<RunModel, Seq<char>> {
    match read_args(
        args,
        1,
        RunModel { model: None, token_ids: Seq::empty(), max_tokens: 16 },
    ) {
        Err(e) => Err(e),
        Ok(s) => if s.model is None {
            Err("--model is required"@)
        } else if s.token_ids.len() == 0 {
            Err("at least one of --token-ids or --prompt is required"@)
        } else {
            Ok(s)
        },
    }
}

/// Reads the command line.
pub fn parse_args(args: &[String]) -> (r: Result<RunConfig, String>)
    ensures
        match asked_for(text::texts(args@)) {
            Ok(s) => r is Ok && s.model == Some(r->Ok_0.model@) && s.token_ids
                == r->Ok_0.token_ids@ && s.max_tokens == r->Ok_0.max_tokens,
            Err(e) => r is Err && r->Err_0@ == e,
        },
{
    let ghost all = text::texts(args@);
    let ghost whole = read_args(
        all,
        1,
        RunModel { model: None, token_ids: Seq::empty(), max_tokens: 16 },
    );
    let mut model: Option<String> = None;
    let mut token_ids: Vec<TokenId> = Vec::new();
    let mut max_tokens: usize = 16;
    let mut i: usize = 1;
    let len: usize = args.len();
    assert(token_ids@ =~= Seq::empty());
    while i < len
        invariant
            len == args@.len(),
            all == text::texts(args@),
            i >= 1,
            whole == read_args(
                all,
                1,
                RunModel { model: None, token_ids: Seq::empty(), max_tokens: 16 },
            ),
            read_args(
                all,
                i as int,
                RunModel {
                    model: match model {
                        Some(m) => Some(m@),
                        None => None,
                    },
                    token_ids: token_ids@,
                    max_tokens,
                },
            ) == whole,
        decreases len - i,
    {
        assert(all[i as int] == args@[i as int]@);
        let arg: &str = args[i].as_str();
        let value: Option<String> = if i < len - 1 {
            argument_at(args, i + 1)
        } else {
            None
        };
        if same_text(arg, "--model") {
            match value {
                None => {
                    return Err(String::from_str("--model requires a path"));
                },
                Some(v) => {
                    model = Some(v);
                },
            }
        } else if same_text(arg, "--token-ids") {
            match value {
                None => {
                    return Err(String::from_str("--token-ids requires a value"));
                },
                Some(v) => match parse_token_ids(v.as_str()) {
                    Err(e) => {
                        return Err(e);
                    },
                    Ok(ids) => {
                        token_ids = ids;
                    },
                },
            }
        } else if same_text(arg, "--prompt") {
            match value {
                None => {
                    return Err(String::from_str("--prompt requires a value"));
                },
                Some(v) => {
                    token_ids = bytes_as_tokens(v.as_str());
                },
            }
        } else if same_text(arg, "--max-tokens") {
            match value {
                None => {
                    return Err(String::from_str("--max-tokens requires a value"));
                },
                Some(v) => match read_usize(v.as_str()) {
                    Ok(n) => {
                        max_tokens = n;
                    },
                    Err(_) => {
                        return Err(String::from_str("--max-tokens must be a positive integer"));
                    },
                },
            }
        } else {
            return Err(joined("unknown argument: ", arg));
        }
        if i < len - 1 {
            i = i + 2;
        } else {
            i = len;
        }
    }
    match model {
        None => Err(String::from_str("--model is required")),
        Some(m) => {
            if token_ids.len() == 0 {
                return Err(
                    String::from_str("at least one of --token-ids or --prompt is required"),
                );
            }
            Ok(RunConfig { model: m, token_ids, max_tokens })
        },
    }
}

/// Whether token `k + 1` is the greedy choice from what the model gave for token
/// `k` alone.
pub open spec fn continued_at<B: CausalLmBackend>(
    states: Seq<B>,
    logits: Seq<TokenLogits>,
    tokens: Seq<TokenId>,
    k: int,
) -> bool {
    &&& backend::next_given(states[k], seq![tokens[k]], states[k + 1], Ok(logits[k]))
    &&& tokens[k + 1] == sampling::greedy_choice(logits[k]@, None).token
}

/// Whether tokens came about through the given states and logits of a model: as
/// many as wanted, or those before its first error.
pub open spec fn continuation_steps<B: CausalLmBackend>(
    first: TokenId,
    max_tokens: usize,
    r: Result<Vec<TokenId>, SpeculativeError>,
    states: Seq<B>,
    logits: Seq<TokenLogits>,
    tokens: Seq<TokenId>,
) -> bool {
    let n = logits.len() as int;
    &&& tokens.len() == n + 1
    &&& tokens[0] == first
    &&& forall|k: int| 0 <= k < n ==> #[trigger] continued_at(states, logits, tokens, k)
    &&& match r {
        Ok(t) => t@ == tokens && states.len() == n + 1 && tokens.len() == (if max_tokens > 1 {
            max_tokens as nat
        } else {
            1
        }),
        Err(e) => states.len() == n + 2 && tokens.len() < max_tokens && backend::next_given(
            states[n],
            seq![tokens[n]],
            states[n + 1],
            Err(e),
        ),
    }
}

/// Whether a model may continue a first token so.
pub open spec fn continued<B: CausalLmBackend>(
    before: B,
    first: TokenId,
    max_tokens: usize,
    after: B,
    r: Result<Vec<TokenId>, SpeculativeError>,
) -> bool {
    exists|states: Seq<B>, logits: Seq<TokenLogits>, tokens: Seq<TokenId>| #[trigger]
        continuation_steps(first, max_tokens, r, states, logits, tokens) && states[0] == before
            && states.last() == after
}

/// Generates greedily after a first token, one token per call of the model, up
/// to `max_tokens` tokens in all, but at least the first. A failure of the model
/// ends it.
pub fn continue_greedily<B: CausalLmBackend>(
    model: &mut B,
    first: TokenId,
    max_tokens: usize,
) -> (r: Result<Vec<TokenId>, SpeculativeError>)
    ensures
        continued(*old(model), first, max_tokens, *final(model), r),
        max_tokens <= 1 ==> r is Ok && *final(model) == *old(model),
{
    let mut generated: Vec<TokenId> = Vec::new();
    generated.push(first);
    let mut last: TokenId = first;
    let ghost mut states: Seq<B> = seq![*model];
    let ghost mut all_logits: Seq<TokenLogits> = Seq::empty();
    while generated.len() < max_tokens
        invariant
            generated@.len() >= 1,
            generated@[0] == first,
            generated@.last() == last,
            generated@.len() <= max_tokens || generated@.len() == 1,
            max_tokens <= 1 ==> *model == *old(model),
            all_logits.len() + 1 == generated@.len(),
            states.len() == generated@.len(),
            states[0] == *old(model),
            states.last() == *model,
            forall|k: int|
                0 <= k < all_logits.len() ==> #[trigger] continued_at(
                    states,
                    all_logits,
                    generated@,
                    k,
                ),
        decreases max_tokens - generated.len(),
    {
        let ghost before = generated@;
        let ghost seen = states;
        let ghost known = all_logits;
        let mut context: Vec<TokenId> = Vec::new();
        context.push(last);
        assert(context@ =~= seq![before.last()]);
        let outcome: Result<TokenLogits, SpeculativeError> = model.next_logits(&context);
        assert(backend::next_given(seen.last(), seq![before.last()], *model, outcome));
        proof {
            states = states.push(*model);
        }
        let logits: TokenLogits = match outcome {
            Ok(l) => l,
            Err(e) => {
                proof {
                    assert forall|k: int| 0 <= k < known.len() implies #[trigger] continued_at(
                        states,
                        known,
                        before,
                        k,
                    ) by {
                        assert(continued_at(seen, known, before, k));
                    }
                    assert(continuation_steps(first, max_tokens, Err(e), states, known, before));
                }
                return Err(e);
            },
        };
        let choice: NextTokenPrediction = GreedySampler.sample(logits.values(), None);
        last = choice.token;
        generated.push(last);
        proof {
            all_logits = all_logits.push(logits);
            assert forall|k: int| 0 <= k < all_logits.len() implies #[trigger] continued_at(
                states,
                all_logits,
                generated@,
                k,
            ) by {
                if k < known.len() {
                    assert(continued_at(seen, known, before, k));
                }
            }
        }
    }
    assert(continuation_steps(first, max_tokens, Ok(generated), states, all_logits, generated@));
    Ok(generated)
}


proof fn lemma_ids(pieces: Seq<Seq<char>>, ids: Seq<TokenId>, n: nat)
    requires
        n <= pieces.len() == ids.len(),
        forall|i: int|
            0 <= i < ids.len() ==> #[trigger] pieces[i] == text::decimal(ids[i] as nat),
    ensures
        ids_of(pieces, n) == Ok::<Seq<TokenId>, Seq<char>>(ids.take(n as int)),
    decreases n,
{
    if n == 0 {
        assert(ids.take(0) =~= Seq::<TokenId>::empty());
    } else {
        lemma_ids(pieces, ids, (n - 1) as nat);
        let d = pieces[n - 1];
        text::written_numbers_are_read_back(ids[n - 1] as nat);
        assert('0' <= d[0] <= '9');
        assert('0' <= d[d.len() - 1] <= '9');
        text::trimming_keeps_the_rest(d);
        assert(ids.take(n - 1).push(ids[n - 1]) =~= ids.take(n as int));
    }
}

/// Token ids written in decimal notation, with commas between them, are read back.
pub proof fn written_ids_are_read_back(ids: Seq<TokenId>)
    requires
        ids.len() > 0,
    ensures
        listed_ids(
            text::separated(
                ids.map_values(|t: TokenId| text::decimal(t as nat)),
                seq![','],
                ids.len(),
            ),
        ) == Ok::<Seq<TokenId>, Seq<char>>(ids),
{
    let parts = ids.map_values(|t: TokenId| text::decimal(t as nat));
    assert forall|i: int| 0 <= i < parts.len() implies !(#[trigger] parts[i]).contains(',') by {
        text::written_numbers_are_read_back(ids[i] as nat);
        assert(text::digits_only(parts[i]));
    }
    text::separated_texts_are_the_pieces(parts, ',');
    lemma_ids(parts, ids, ids.len());
    assert(ids.take(ids.len() as int) =~= ids);
}

proof fn lemma_read_on(args: Seq<Seq<char>>, more: Seq<Seq<char>>, i: int, s: RunModel)
    requires
        0 <= i <= args.len(),
        read_args(args, i, s) is Ok,
    ensures
        read_args(args + more, i, s) == read_args(
            args + more,
            args.len() as int,
            read_args(args, i, s)->Ok_0,
        ),
    decreases args.len() - i,
{
    if i < args.len() {
        let value = cli::argument(args, i + 1);
        assert((args + more)[i] == args[i]);
        assert(value is Some);
        assert(i + 1 < args.len());
        assert((args + more)[i + 1] == args[i + 1]);
        let v = value->0;
        if args[i] == "--model"@ {
            lemma_read_on(args, more, i + 2, RunModel { model: Some(v), ..s });
        } else if args[i] == "--token-ids"@ {
            lemma_read_on(args, more, i + 2, RunModel { token_ids: listed_ids(v)->Ok_0, ..s });
        } else if args[i] == "--prompt"@ {
            lemma_read_on(args, more, i + 2, RunModel { token_ids: cli::byte_tokens(v), ..s });
        } else {
            lemma_read_on(
                args,
                more,
                i + 2,
                RunModel { max_tokens: text::numeral(v)->0 as usize, ..s },
            );
        }
    }
}

/// An option at the end of a command line that is in order sets what it names, whatever
/// was said of it before, and nothing else: a path, the ids of a list, the bytes of a
/// prompt or a number.
pub proof fn options_set_what_they_name(
    args: Seq<Seq<char>>,
    path: Seq<char>,
    ids: Seq<TokenId>,
    prompt: Seq<char>,
    n: usize,
    s: RunModel,
)
    requires
        args.len() > 0,
        read_args(args, 1, s) is Ok,
        ids.len() > 0,
    ensures
        ({
            let t = read_args(args, 1, s)->Ok_0;
            let list = text::separated(
                ids.map_values(|t: TokenId| text::decimal(t as nat)),
                seq![','],
                ids.len(),
            );
            let bytes = vstd::utf8::encode_utf8(prompt);
            &&& ({
                let r = read_args(args + seq!["--model"@, path], 1, s);
                r is Ok && r->Ok_0.model == Some(path) && r->Ok_0.token_ids == t.token_ids
                    && r->Ok_0.max_tokens == t.max_tokens
            })
            &&& ({
                let r = read_args(args + seq!["--token-ids"@, list], 1, s);
                r is Ok && r->Ok_0.token_ids == ids && r->Ok_0.model == t.model
                    && r->Ok_0.max_tokens == t.max_tokens
            })
            &&& ({
                let r = read_args(args + seq!["--prompt"@, prompt], 1, s);
                &&& r is Ok && r->Ok_0.model == t.model && r->Ok_0.max_tokens == t.max_tokens
                &&& r->Ok_0.token_ids.len() == bytes.len()
                &&& forall|i: int|
                    0 <= i < bytes.len() ==> #[trigger] r->Ok_0.token_ids[i] == bytes[i]
            })
            &&& ({
                let r = read_args(args + seq!["--max-tokens"@, text::decimal(n as nat)], 1, s);
                r is Ok && r->Ok_0.max_tokens == n && r->Ok_0.model == t.model
                    && r->Ok_0.token_ids == t.token_ids
            })
        }),
{
    let list = text::separated(
        ids.map_values(|t: TokenId| text::decimal(t as nat)),
        seq![','],
        ids.len(),
    );
    let number = text::decimal(n as nat);
    let m = args.len() as int;
    reveal_strlit("--model");
    reveal_strlit("--token-ids");
    reveal_strlit("--prompt");
    reveal_strlit("--max-tokens");
    assert("--model"@.len() == 7 && "--token-ids"@.len() == 11 && "--prompt"@.len() == 8
        && "--max-tokens"@.len() == 12);
    written_ids_are_read_back(ids);
    text::written_numbers_are_read_back(n as nat);
    reveal_with_fuel(read_args, 2);
    let a = seq!["--model"@, path];
    lemma_read_on(args, a, 1, s);
    assert((args + a)[m] == a[0] && (args + a)[m + 1] == a[1]);
    let b = seq!["--token-ids"@, list];
    lemma_read_on(args, b, 1, s);
    assert((args + b)[m] == b[0] && (args + b)[m + 1] == b[1]);
    let c = seq!["--prompt"@, prompt];
    lemma_read_on(args, c, 1, s);
    assert((args + c)[m] == c[0] && (args + c)[m + 1] == c[1]);
    let d = seq!["--max-tokens"@, number];
    lemma_read_on(args, d, 1, s);
    assert((args + d)[m] == d[0] && (args + d)[m + 1] == d[1]);
}

/// Without a model there is no run, and without tokens neither; what holds unless it is
/// said is the number of new tokens.
pub proof fn runs_need_a_model_and_a_prompt(name: Seq<char>, path: Seq<char>, prompt: Seq<char>)
    ensures
        asked_for(seq![name]) is Err,
        asked_for(seq![name, "--model"@, path]) is Err,
        asked_for(seq![name, "--prompt"@, prompt]) is Err,
        vstd::utf8::encode_utf8(prompt).len() > 0 ==> ({
            let r = asked_for(seq![name, "--model"@, path, "--prompt"@, prompt]);
            r is Ok && r->Ok_0.model == Some(path) && r->Ok_0.max_tokens == 16
        }),
{
    reveal_strlit("--model");
    reveal_strlit("--token-ids");
    reveal_strlit("--prompt");
    reveal_strlit("--max-tokens");
    assert("--model"@.len() == 7 && "--token-ids"@.len() == 11 && "--prompt"@.len() == 8
        && "--max-tokens"@.len() == 12);
    reveal_with_fuel(read_args, 3);
}
} // verus!
