use llguidance::api::TopLevelGrammar;
use serde_json::Value;
use velo_core::backend::{CausalLmBackend, GreedyDraftModel, GreedyTargetModel, TokenLogits};
use velo_core::constraints::{
    build_factory, constrained_by, CfgMatcher, Constraint, LlguidanceMatcher,
};
use velo_core::engine::{BatchRequest, EngineConfig, VeloEngine};
use velo_core::paged_attention::KvCacheType;
use velo_core::radix_cache::TokenId;
use velo_core::runtime::MemoryRuntimeConfig;
use velo_core::scalar::F32;
use velo_core::speculative::SpeculativeError;
use velo_core::tokenizer::{dummy_tokenizer, Tokenizer};

fn object(entries: Vec<(&str, Value)>) -> Value {
    let mut m = serde_json::Map::new();
    for (k, v) in entries {
        m.insert(k.to_string(), v);
    }
    Value::Object(m)
}

fn typed(name: &str) -> Value {
    object(vec![("type", Value::String(name.to_string()))])
}

#[test]
fn test_constraint_enum() {
    let regex = Constraint::Regex("a*".to_string());
    assert!(format!("{:?}", regex).contains("Regex"));

    let json = Constraint::JsonSchema(typed("string"));
    assert!(format!("{:?}", json).contains("JsonSchema"));

    let lark = Constraint::Lark("start: /a/".to_string());
    assert!(format!("{:?}", lark).contains("Lark"));
}

#[test]
fn test_json_masking_integration() {
    let tokenizer = dummy_tokenizer();
    let factory = build_factory(&tokenizer).expect("Failed to build factory");

    // Simple JSON schema: an object with "name" string and "age" number.
    let schema = object(vec![
        ("type", Value::String("object".to_string())),
        ("properties", object(vec![("name", typed("string")), ("age", typed("number"))])),
        (
            "required",
            Value::Array(vec![
                Value::String("name".to_string()),
                Value::String("age".to_string()),
            ]),
        ),
    ]);

    let grammar = TopLevelGrammar::from_json_schema(schema);
    let mut matcher = LlguidanceMatcher::new(&factory, grammar, tokenizer.vocab_size())
        .expect("Failed to create matcher");

    // First token MUST be '{'
    let mask = matcher.next_mask();
    let brace_id = tokenizer.encode("{")[0] as usize;
    assert!(mask.get(brace_id).unwrap(), "First token must allow '{{'");

    // Ensure it DOES NOT allow '}' at the very start
    let close_brace_id = tokenizer.encode("}")[0] as usize;
    assert!(!mask.get(close_brace_id).unwrap_or(false), "First token must NOT allow '}}'");

    // Advance with '{'
    matcher.advance(brace_id as u32);
    let mask = matcher.next_mask();
    let quote_id = tokenizer.encode("\"")[0] as usize;
    assert!(mask.get(quote_id).unwrap(), "After '{{', must allow '\"'");
}

#[derive(Clone)]
struct JsonPreferenceBackend {
    tokenizer: Tokenizer,
}

fn f(v: f32) -> F32 {
    F32::from_bits(v.to_bits())
}

impl CausalLmBackend for JsonPreferenceBackend {
    fn next_logits(&mut self, context: &[TokenId]) -> Result<TokenLogits, SpeculativeError> {
        let text = self.tokenizer.decode(context);
        let mut logits = vec![f(-10.0); self.tokenizer.vocab_size()];

        // Strategy: Model "prefers" invalid JSON but the mask should stop it.
        // If we just had '{ "name": ', the model might want to output 'Alice' without quotes.
        if text.ends_with(": ") {
            let a_id = self.tokenizer.encode("a")[0] as usize;
            let quote_id = self.tokenizer.encode("\"")[0] as usize;
            logits[a_id] = f(10.0);
            logits[quote_id] = f(5.0);
        } else if text.ends_with(": \"") {
            // Model outputs 'alice'
            let alice_id = self.tokenizer.encode("alice")[0] as usize;
            logits[alice_id] = f(10.0);
        } else if text.ends_with("alice") {
            // Model wants ' ' (invalid, must close quote)
            let space_id = self.tokenizer.encode(" ")[0] as usize;
            logits[space_id] = f(10.0);

            // Mask should force '"'
            let quote_id = self.tokenizer.encode("\"")[0] as usize;
            logits[quote_id] = f(5.0);
        } else {
            // Default: just output something
            logits[0] = f(0.0);
        }

        Ok(TokenLogits::new(logits).unwrap())
    }

    fn verify_logits(
        &mut self,
        context: &[TokenId],
        drafted: &[TokenId],
    ) -> Result<Vec<TokenLogits>, SpeculativeError> {
        let mut results = Vec::new();
        let mut current_ctx = context.to_vec();
        for &t in drafted {
            results.push(self.next_logits(&current_ctx)?);
            current_ctx.push(t);
        }
        Ok(results)
    }
}

#[test]
fn test_json_e2e_constrained_generation() {
    let tokenizer = dummy_tokenizer();
    let factory = build_factory(&tokenizer).expect("Failed to build factory");

    let mut engine = VeloEngine::new(EngineConfig {
        draft_window: 4,
        memory: MemoryRuntimeConfig::cpu(128, 16, 32, 4, 4),
        kv_type: KvCacheType::Fp32,
    })
    .unwrap();
    engine.parser_factory = Some(factory);

    let backend = JsonPreferenceBackend { tokenizer: tokenizer.clone() };
    let mut draft = GreedyDraftModel::new(backend.clone());
    let mut target = GreedyTargetModel::new(backend);

    let prompt = tokenizer.encode("{ \"name\": ");
    let schema = object(vec![
        ("type", Value::String("object".to_string())),
        ("properties", object(vec![("name", typed("string"))])),
    ]);

    let request = BatchRequest {
        prompt: prompt.clone(),
        max_new_tokens: 10,
        constraint: Some(Constraint::JsonSchema(schema)),
    };

    let outputs = engine.generate_batch(&mut draft, &mut target, vec![request]).unwrap();
    let result_text = tokenizer.decode(&outputs[0].tokens);

    // It should have forced the quote at the start
    assert!(
        result_text.starts_with("\""),
        "Generated text should start with a quote: {}",
        result_text
    );
}

#[test]
fn copies_of_a_matcher_go_their_own_way() {
    let tokenizer = dummy_tokenizer();
    let factory = build_factory(&tokenizer).unwrap();
    let grammar = TopLevelGrammar::from_json_schema(typed("object"));
    let mut matcher =
        LlguidanceMatcher::new(&factory, grammar, tokenizer.vocab_size()).unwrap();
    let brace = tokenizer.encode("{")[0];
    let mut copy = matcher.clone_box();
    copy.advance(brace);
    assert!(matcher.next_mask().get(brace as usize).unwrap());
    assert!(!copy.next_mask().get(brace as usize).unwrap());
}

#[test]
fn a_compiled_grammar_becomes_a_matcher() {
    let tokenizer = dummy_tokenizer();
    let factory = build_factory(&tokenizer).expect("Failed to build factory");
    let parser = factory.create_parser(TopLevelGrammar::from_regex("a*"));
    let compiled = Ok(llguidance::Matcher::new(parser));
    let matcher = LlguidanceMatcher::from_parser(compiled, 5).ok().unwrap();
    assert_eq!(constrained_by(Ok(matcher)).unwrap().next_mask().len(), 5);

    let refused = LlguidanceMatcher::from_parser(Err("no grammar".to_string()), 5);
    assert_eq!(refused.err(), Some("no grammar".to_string()));
    assert!(constrained_by(Err("no grammar".to_string())).is_none());
}
