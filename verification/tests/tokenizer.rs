use velo_core::cli::serve::{chat_tokens, default_max_tokens};
use velo_core::gguf::{GgufFile, GgufValue};
use velo_core::table::Table;
use velo_core::tokenizer::{dummy_tokenizer, Tokenizer};

fn mock_tokenizer() -> Tokenizer {
    let vocab = vec!["<unk>", "<s>", "</s>", " ", "t", "h", "e", "th", "the", "q"];
    Tokenizer::new(vocab.iter().map(|s| s.to_string()).collect(), None)
}

#[test]
fn test_encode_greedy() {
    let t = mock_tokenizer();
    // "the" should be matched as one token if possible
    let ids = t.encode("the");
    assert_eq!(ids.len(), 1);
    assert_eq!(t.token_at(ids[0] as usize), "the");

    // "th" should match "th"
    let ids = t.encode("th");
    assert_eq!(ids.len(), 1);
    assert_eq!(t.token_at(ids[0] as usize), "th");
}

#[test]
fn test_decode() {
    let t = mock_tokenizer();
    let ids = vec![8, 9]; // "the", "q"
    assert_eq!(t.decode(&ids), "theq");
}

#[test]
fn test_decode_with_space_artifact() {
    let t = mock_tokenizer();
    let ids = vec![3, 4]; // " ", "t"
    assert_eq!(t.decode(&ids), " t");
}

#[test]
fn test_from_gguf() {
    let mut metadata = Table::new();
    metadata.insert(
        "tokenizer.ggml.tokens".to_string(),
        GgufValue::Array(vec![GgufValue::String("a".into()), GgufValue::String("b".into())]),
    );

    let file = GgufFile { version: 3, metadata, tensors: Table::new(), data_offset: 0 };

    let t = Tokenizer::from_gguf(&file);
    assert_eq!(t.vocab_size(), 2);
    assert_eq!(t.encode("ab"), vec![0, 1]);
}

fn empty_file() -> GgufFile {
    GgufFile { version: 3, metadata: Table::new(), tensors: Table::new(), data_offset: 0 }
}

fn said(role: &str, content: &str) -> serde_json::Value {
    let mut message = serde_json::Map::new();
    message.insert("role".to_string(), serde_json::Value::from(role));
    message.insert("content".to_string(), serde_json::Value::from(content));
    serde_json::Value::Object(message)
}

#[test]
fn test_chat_template() {
    let mut tokenizer = Tokenizer::from_gguf(&empty_file());
    // Set a custom template for testing
    tokenizer.chat_template = Some("{{ messages[0].content }}".to_string());

    let messages = vec![said("user", "Hello")];

    let prompt = tokenizer.apply_chat_template(&messages, true).unwrap();
    assert_eq!(prompt, "Hello");
}

#[test]
fn the_default_template_marks_the_speakers() {
    let tokenizer = Tokenizer::from_gguf(&empty_file());
    let messages = vec![said("user", "Hi")];
    let with = tokenizer.apply_chat_template(&messages, true).unwrap();
    let without = tokenizer.apply_chat_template(&messages, false).unwrap();
    assert!(with.starts_with("<|im_start|>user\nHi<|im_end|>"));
    assert!(with.contains("<|im_start|>assistant"));
    assert!(!without.contains("assistant"));
}

#[test]
fn templates_read_any_key_of_a_message() {
    let mut tokenizer = mock_tokenizer();
    tokenizer.chat_template = Some("{{ messages[1].name }}: {{ messages[0].role }}".to_string());
    let mut named = said("assistant", "");
    named["name"] = serde_json::Value::from("velo");
    let prompt = tokenizer.apply_chat_template(&[said("user", ""), named], false).unwrap();
    assert_eq!(prompt, "velo: user");
}

#[test]
fn a_broken_template_is_reported() {
    let mut tokenizer = mock_tokenizer();
    tokenizer.chat_template = Some("{% for %}".to_string());
    assert!(tokenizer.apply_chat_template(&[said("user", "x")], true).is_err());
    assert!(chat_tokens(&tokenizer, &[said("user", "x")]).is_err());
}

fn rendered(template: &str, messages: &[serde_json::Value]) -> Result<String, String> {
    let mut tokenizer = mock_tokenizer();
    tokenizer.chat_template = Some(template.to_string());
    tokenizer.apply_chat_template(messages, true)
}

#[test]
fn templates_that_the_engine_cannot_take_are_refused() {
    let refused = Err("chat template is not supported".to_string());
    for template in [
        "{% for m in messages[::-1] %}{{ m.content }}{% endfor %}",
        "{{ messages[0].content[::-1] }}",
        "{{ messages[1:n(2):-1] }}",
        "{{ '%.70000f'|format(1.5) }}",
        "{{ ['%.70000f']|map('format', 1.5) }}",
        "{{ [1] * 9 }}",
        "{{ [1] * messages|length }}",
        "{{ messages * 2 }}",
        "{% set loop = {'index': [1]} %}{{ loop.index * 2 }}",
        "{{ 'a'|indent(30000) }}",
        "{{ 'a'|indent(width) }}",
        "{{ 'a'|indent(first=true, width=n) }}",
        "{{ 'a'|indent(*[9]) }}",
        "{{ messages|batch(30000) }}",
        "{{ messages|slice(n) }}",
        "{{ messages|chain([1]) }}",
        "{{ 'a b'|split(' ', n) }}",
        "{{ '%(\u{e9})s'|format({}) }}",
        "{{ messages[0].content|format(1) }}",
        "{{ range(*[3, 0, -1]) }}",
        "{% set r = range %}",
        "{{ range(3, 0, -1) }}",
        "{% for m in messages %}{{ loop.cycle() }}{% endfor %}",
        "{{ 4 is divisibleby(0) }}",
        "{{ [4]|select('divisibleby', 0) }}",
        "{{ [4]|select('divisible' ~ 'by', 0) }}",
        "{{ [4]|select('divisible' 'by', 0) }}",
        "{{ '%.70' '000f'|format(1.5) }}",
        "{{ messages|map('so' 'rt', attribute='x') }}",
        "{{ 9 * 'a' 'b'|list }}",
        "{{ 1.e5format }}",
        "{{ messages|sort(attribute='x') }}",
        "{{ messages|sort(**{'attribute': 'x'}) }}",
        "{{ messages|map('sort', attribute='x') }}",
        "{{ messages|map(name) }}",
        "{% for m in messages %}{{ loop.cycle(*[]) }}{% endfor %}",
        "{% for m in messages recursive %}{{ loop(m) }}{% endfor %}",
        "{% block a %}{{ self.a() }}{% endblock %}",
        "{%- extends 'chat' %}",
        "{% import 'chat' as c %}",
        "{{ debug() }}",
        "{% filter format %}{% endfilter %}",
        "{% set ns = namespace() %}{% set ns.own = ns %}{{ ns }}",
        "{% set ns = namespace(), 1 %}{% set a = ns.0 %}{% set a.own = a %}{{ a }}",
        "{% raw %}{{ ' {% endraw %}{{ x|format }}'}}",
        "{% set ns = namespace() %}{% macro a() %}{% macro b() %}{% endmacro %}{% set ns.f = b %}{% endmacro %}{{ a() }}{{ ns.f() }}",
        "{% set ns = namespace() %}{% macro a() %}{% include 'chat' %}{% endmacro %}",
    ] {
        assert_eq!(rendered(template, &[]), refused, "{}", template);
    }
    let long = "x".repeat(65535);
    assert_eq!(rendered(&long, &[]), refused);
    assert_eq!(rendered(&long[1..], &[]), Ok(long[1..].to_string()));
}

#[test]
fn ordinary_templates_are_rendered() {
    let chat = [said("system", "Be brief."), said("user", " Hi "), said("assistant", "Yes?")];
    for (template, expected) in [
        ("In the format of a map: {# range #}{{ \"format * map\" }}", "In the format of a map: format * map"),
        ("{% for m in messages[1:] %}{{ m['role'] }};{% endfor %}", "user;assistant;"),
        ("{% for m in messages[:2] %}{{ m.role }};{% endfor %}", "system;user;"),
        ("{{ messages[1].content|trim }}", "Hi"),
        ("{{ {'a': {'b': 7}, 'c': 8}.a.b }}", "7"),
        ("{{ (messages|selectattr('role', 'equalto', 'user')|list)|length }}", "1"),
        (
            "{% set ns = namespace(n=0) %}{% for m in messages %}{% set ns.n = ns.n + 1 %}{% endfor %}{{ ns.n }}",
            "3",
        ),
        ("{%- if messages[0]['role'] == 'system' -%} {{- messages[0]['content'] -}} {%- endif -%}", "Be brief."),
        ("{{ 'it\\'s' }}", "it's"),
        ("{% raw %}{{ x|format }}{%- endraw %}!", "{{ x|format }}!"),
        ("{% block b %}in{% endblock %}", "in"),
        ("{% filter upper %}abc{% endfilter %}", "ABC"),
        ("{% include 'none' ignore missing %}end", "end"),
        ("{% for i in range(2) %}{{ i }}{% endfor %}", "01"),
        ("{% for i in range(1, 6, 2) %}{{ i }}{% endfor %}", "135"),
        ("{{ messages|map(attribute='role')|join(',') }}", "system,user,assistant"),
        ("{{ ['a', 'b']|map('upper')|join }}", "AB"),
        ("{{ [3, 1, 2]|sort|join }}", "123"),
        ("{{ [3, 1, 2]|sort(reverse=true)|join }}", "321"),
        ("{% for k, v in {'b': 1, 'a': 2}|dictsort %}{{ k }}{% endfor %}", "ab"),
        ("{{ 'a b c'|split|join('-') }}", "a-b-c"),
        ("{{ 'a b c'|split(' ', 1)|join('-') }}", "a-b c"),
        ("{{ '%s is %05.1f'|format('x', 2.5) }}", "x is 002.5"),
        ("{{ 'a\\nb'|indent(2) }}", "a\n  b"),
        ("{{ 'a\\nb'|indent(width=1, first=true) }}", " a\n b"),
        ("{{ [1, 2, 3]|batch(2)|length }}", "2"),
        ("{{ '=' * 5 }}", "====="),
        ("{{ 2 ** 5 }}", "32"),
        ("{% for m in messages %}{{ loop.index * 2 }}{% endfor %}", "246"),
        ("{{ messages|length * 10 }}", "30"),
        ("{% for m in messages %}{{ loop.cycle('a', 'b') }}{% endfor %}", "aba"),
        ("{% if 9 is divisibleby(3) %}yes{% endif %}", "yes"),
        ("{% macro f(a, b) %}{{ a }}{{ b }}{% endmacro %}{{ f(*['x', 'y']) }}", "xy"),
        ("{% set ns = namespace(n=1) %}{% macro f() %}{{ ns.n }}{% endmacro %}{{ f() }}", "1"),
        ("{{ messages[0].from }}.", "."),
    ] {
        assert_eq!(rendered(template, &chat), Ok(expected.to_string()), "{}", template);
    }
}

#[test]
fn chats_become_tokens() {
    let mut tokenizer = mock_tokenizer();
    tokenizer.chat_template = Some("{{ messages[0].content }}".to_string());
    assert_eq!(chat_tokens(&tokenizer, &[said("user", "the q")]).unwrap(), vec![8, 3, 9]);
}

#[test]
fn test_default_max_tokens() {
    assert_eq!(default_max_tokens(), 128);
}

#[test]
fn encoding_is_undone_by_decoding() {
    let t = dummy_tokenizer();
    let text = "{ \"name\": ";
    assert_eq!(t.decode(&t.encode(text)), text);
}

#[test]
fn unknown_characters_are_skipped_whole() {
    let t = mock_tokenizer();
    assert_eq!(t.encode("téh"), vec![4, 5]);
}

#[test]
fn copies_tokenize_alike() {
    let t = mock_tokenizer();
    let u = t.clone();
    assert_eq!(t.encode("theq t"), u.encode("theq t"));
    assert_eq!(u.id_to_token(8), "the");
}

#[test]
fn words_that_occur_twice_are_decoded_alike() {
    let words = ["a", "b", "a", "ab", "b"];
    let t = Tokenizer::new(words.iter().map(|s| s.to_string()).collect(), None);
    assert_eq!(t.encode("aabb"), vec![2, 3, 4]);
    assert_eq!(t.decode(&t.encode("aabb")), "aabb");
}
