//! Which chat templates are handed to the template engine.
//!
//! A template is text with tags in it. The engine gives up, rather than return an
//! error, on a few constructs that chat templates hardly ever need: slices with a
//! step, sizes and divisors that are computed, repeated lists, orders that are none,
//! blocks and loops that call themselves, and namespaces that can come to hold
//! themselves or a macro that is gone. A template is supported if it has none of
//! them.

use vstd::prelude::*;
use vstd::string::*;
use crate::text::{characters, same_text, text_between};

verus! {

// ---------------------------------------------------------------------------
// The pieces of a template
// ---------------------------------------------------------------------------

/// A piece of what stands inside the tags of a template.
pub enum Piece {
    /// A name or a keyword.
    Word(Seq<char>),
    /// A run of letters and digits that starts with a digit.
    Number(Seq<char>),
    /// What stands between two quotes, with its escapes as they are written.
    Quoted(Seq<char>),
    /// Any other character, by its code.
    Sign(u32),
    /// The start of a tag with a statement.
    Begin,
    /// The end of a tag.
    End,
}

/// Where a place in a template lies: in its text, in a tag with an expression, or
/// in a tag with a statement.
#[derive(Clone, Copy)]
pub enum Place {
    Text,
    Expression,
    Statement,
}

/// Whether a character may stand in a name.
pub open spec fn word_char(c: char) -> bool {
    'a' <= c <= 'z' || 'A' <= c <= 'Z' || '0' <= c <= '9' || c == '_'
}

pub open spec fn digit(c: char) -> bool {
    '0' <= c <= '9'
}

/// Whether a character separates pieces.
pub open spec fn space(c: char) -> bool {
    c == ' ' || c == '\t' || c == '\n' || c == '\r' || c == '\x0C'
}

pub open spec fn digits_only(w: Seq<char>) -> bool {
    forall|k: int| 0 <= k < w.len() ==> digit(#[trigger] w[k])
}

/// Where the run of characters of a name that starts at `i` ends.
pub open spec fn run_end(t: Seq<char>, i: int) -> int
    decreases t.len() - i,
{
    if 0 <= i < t.len() && word_char(t[i]) {
        run_end(t, i + 1)
    } else {
        i
    }
}

/// Where the quote stands that ends a quoted text. A backslash takes the next
/// character with it.
pub open spec fn quote_end(t: Seq<char>, i: int, quote: char) -> Option<int>
    decreases t.len() - i,
{
    if i < 0 || i >= t.len() {
        None
    } else if t[i] == '\\' {
        if i + 1 < t.len() {
            quote_end(t, i + 2, quote)
        } else {
            None
        }
    } else if t[i] == quote {
        Some(i)
    } else {
        quote_end(t, i + 1, quote)
    }
}

/// Where the two characters stand that end a comment.
pub open spec fn comment_end(t: Seq<char>, i: int) -> Option<int>
    decreases t.len() - i,
{
    if i < 0 || i + 1 >= t.len() {
        None
    } else if t[i] == '#' && t[i + 1] == '}' {
        Some(i)
    } else {
        comment_end(t, i + 1)
    }
}

/// Where the text goes on behind a tag that ends at `i`, if it ends there. A sign
/// that strips white space may stand before the end.
pub open spec fn tag_end(t: Seq<char>, i: int, place: Place) -> Option<int> {
    let j = if t[i] == '-' || t[i] == '+' {
        i + 1
    } else {
        i
    };
    let c = if place is Expression {
        '}'
    } else {
        '%'
    };
    if j + 1 < t.len() && t[j] == c && t[j + 1] == '}' {
        Some(j + 2)
    } else {
        None
    }
}

/// The next place from `i` on where no space stands.
pub open spec fn after_spaces(t: Seq<char>, i: int) -> int
    decreases t.len() - i,
{
    if 0 <= i < t.len() && space(t[i]) {
        after_spaces(t, i + 1)
    } else {
        i
    }
}

/// The place behind the sign at `i` that strips white space, or `i` if there is none.
pub open spec fn after_sign(t: Seq<char>, i: int) -> int {
    if 0 <= i < t.len() && (t[i] == '-' || t[i] == '+') {
        i + 1
    } else {
        i
    }
}

/// Where the text goes on behind a statement that consists of `name` alone. Its tag
/// was opened before `i`.
pub open spec fn bare_tag(t: Seq<char>, i: int, name: Seq<char>) -> Option<int> {
    let a = after_spaces(t, after_sign(t, i));
    let b = after_sign(t, after_spaces(t, a + name.len()));
    if a + name.len() <= t.len() && t.subrange(a, a + name.len()) == name && b + 1 < t.len()
        && t[b] == '%' && t[b + 1] == '}' {
        Some(b + 2)
    } else {
        None
    }
}

/// Where the text goes on behind raw text.
pub open spec fn raw_end(t: Seq<char>, i: int) -> Option<int>
    decreases t.len() - i,
{
    if i < 0 || i + 1 >= t.len() {
        None
    } else if t[i] == '{' && t[i + 1] == '%' && bare_tag(t, i + 2, "endraw"@) is Some {
        bare_tag(t, i + 2, "endraw"@)
    } else {
        raw_end(t, i + 1)
    }
}

/// How a sign changes the number of brackets that are open.
pub open spec fn opened(c: char) -> int {
    if c == '(' || c == '[' || c == '{' {
        1
    } else if c == ')' || c == ']' || c == '}' {
        -1
    } else {
        0
    }
}

/// The run of characters of a name that starts at `i`.
pub open spec fn run_piece(t: Seq<char>, i: int) -> Piece {
    if digit(t[i]) {
        Piece::Number(t.subrange(i, run_end(t, i)))
    } else {
        Piece::Word(t.subrange(i, run_end(t, i)))
    }
}

/// The pieces of a template from a place on. A tag ends only where no bracket is
/// open. Nothing comes of raw text, a comment or a quoted text that does not end.
pub open spec fn pieces(t: Seq<char>, i: int, place: Place, depth: int) -> Seq<Piece>
    decreases t.len() - i,
    via pieces_terminate
{
    if i < 0 || i >= t.len() {
        Seq::empty()
    } else if place is Text {
        if t[i] == '{' && i + 1 < t.len() && t[i + 1] == '{' {
            pieces(t, i + 2, Place::Expression, depth)
        } else if t[i] == '{' && i + 1 < t.len() && t[i + 1] == '%' {
            match bare_tag(t, i + 2, "raw"@) {
                Some(a) => match raw_end(t, a) {
                    Some(e) => pieces(t, e, Place::Text, depth),
                    None => Seq::empty(),
                },
                None => seq![Piece::Begin] + pieces(t, i + 2, Place::Statement, depth),
            }
        } else if t[i] == '{' && i + 1 < t.len() && t[i + 1] == '#' {
            match comment_end(t, i + 2) {
                Some(e) => pieces(t, e + 2, Place::Text, depth),
                None => Seq::empty(),
            }
        } else {
            pieces(t, i + 1, Place::Text, depth)
        }
    } else if space(t[i]) {
        pieces(t, i + 1, place, depth)
    } else if depth == 0 && tag_end(t, i, place) is Some {
        seq![Piece::End] + pieces(t, tag_end(t, i, place)->0, Place::Text, depth)
    } else if t[i] == '\'' || t[i] == '"' {
        match quote_end(t, i + 1, t[i]) {
            Some(e) => seq![Piece::Quoted(t.subrange(i + 1, e))] + pieces(t, e + 1, place, depth),
            None => Seq::empty(),
        }
    } else if word_char(t[i]) {
        seq![run_piece(t, i)] + pieces(t, run_end(t, i), place, depth)
    } else {
        seq![Piece::Sign(t[i] as u32)] + pieces(t, i + 1, place, depth + opened(t[i]))
    }
}

#[via_fn]
proof fn pieces_terminate(t: Seq<char>, i: int, place: Place, depth: int) {
    if 0 <= i < t.len() {
        lemma_comment_end(t, i + 2);
        lemma_quote_end(t, i + 1, t[i]);
        lemma_run_end(t, i);
        lemma_run_end(t, i + 1);
        lemma_raw(t, i);
    }
}

proof fn lemma_after_spaces(t: Seq<char>, i: int)
    ensures
        i <= after_spaces(t, i),
        i <= t.len() ==> after_spaces(t, i) <= t.len(),
    decreases t.len() - i,
{
    if 0 <= i < t.len() && space(t[i]) {
        lemma_after_spaces(t, i + 1);
    }
}

proof fn lemma_bare_tag(t: Seq<char>, i: int, name: Seq<char>)
    ensures
        bare_tag(t, i, name) is Some ==> i + 2 <= bare_tag(t, i, name)->0 <= t.len(),
{
    let a = after_spaces(t, after_sign(t, i));
    lemma_after_spaces(t, after_sign(t, i));
    lemma_after_spaces(t, a + name.len());
}

proof fn lemma_raw_end(t: Seq<char>, i: int)
    ensures
        raw_end(t, i) is Some ==> i < raw_end(t, i)->0 <= t.len(),
    decreases t.len() - i,
{
    if 0 <= i && i + 1 < t.len() {
        lemma_bare_tag(t, i + 2, "endraw"@);
        lemma_raw_end(t, i + 1);
    }
}

/// Raw text that is opened at `i` ends behind it.
proof fn lemma_raw(t: Seq<char>, i: int)
    ensures
        bare_tag(t, i + 2, "raw"@) is Some ==> {
            let a = bare_tag(t, i + 2, "raw"@)->0;
            &&& i < a <= t.len()
            &&& raw_end(t, a) is Some ==> i < raw_end(t, a)->0 <= t.len()
        },
{
    lemma_bare_tag(t, i + 2, "raw"@);
    if bare_tag(t, i + 2, "raw"@) is Some {
        lemma_raw_end(t, bare_tag(t, i + 2, "raw"@)->0);
    }
}

proof fn lemma_comment_end(t: Seq<char>, i: int)
    ensures
        comment_end(t, i) is Some ==> i <= comment_end(t, i)->0 && comment_end(t, i)->0 + 1
            < t.len(),
    decreases t.len() - i,
{
    if 0 <= i && i + 1 < t.len() {
        lemma_comment_end(t, i + 1);
    }
}

proof fn lemma_quote_end(t: Seq<char>, i: int, quote: char)
    ensures
        quote_end(t, i, quote) is Some ==> i <= quote_end(t, i, quote)->0 < t.len(),
    decreases t.len() - i,
{
    if 0 <= i < t.len() {
        lemma_quote_end(t, i + 1, quote);
        if i + 1 < t.len() {
            lemma_quote_end(t, i + 2, quote);
        }
    }
}

proof fn lemma_run_end(t: Seq<char>, i: int)
    ensures
        i <= run_end(t, i),
        i <= t.len() ==> run_end(t, i) <= t.len(),
        forall|k: int| i <= k < run_end(t, i) ==> word_char(#[trigger] t[k]),
    decreases t.len() - i,
{
    if 0 <= i < t.len() && word_char(t[i]) {
        lemma_run_end(t, i + 1);
    }
}

// ---------------------------------------------------------------------------
// What is supported
// ---------------------------------------------------------------------------

/// Filters that apply a test by its name.
pub open spec fn testing_filter(w: Seq<char>) -> bool {
    w == "select"@ || w == "reject"@ || w == "selectattr"@ || w == "rejectattr"@
}

pub open spec fn is_sign(p: Seq<Piece>, i: int, c: char) -> bool {
    0 <= i < p.len() && p[i] == Piece::Sign(c as u32)
}

pub open spec fn is_word(p: Seq<Piece>, i: int, w: Seq<char>) -> bool {
    0 <= i < p.len() && p[i] == Piece::Word(w)
}

pub open spec fn is_bracket(p: Seq<Piece>, i: int) -> bool {
    ||| is_sign(p, i, '(')
    ||| is_sign(p, i, ')')
    ||| is_sign(p, i, '[')
    ||| is_sign(p, i, ']')
    ||| is_sign(p, i, '{')
    ||| is_sign(p, i, '}')
}

/// Whether a bracket opens at `i`.
pub open spec fn opens(p: Seq<Piece>, i: int) -> bool {
    is_sign(p, i, '(') || is_sign(p, i, '[') || is_sign(p, i, '{')
}

/// Whether a bracket closes at `i`.
pub open spec fn shuts(p: Seq<Piece>, i: int) -> bool {
    is_sign(p, i, ')') || is_sign(p, i, ']') || is_sign(p, i, '}')
}

/// Where the bracket closes inside which `i` lies, `depth` brackets further in, or
/// the end of the pieces if it does not close.
pub open spec fn closing(p: Seq<Piece>, i: int, depth: nat) -> int
    decreases p.len() - i,
{
    if i < 0 || i >= p.len() {
        p.len() as int
    } else if opens(p, i) {
        closing(p, i + 1, depth + 1)
    } else if shuts(p, i) {
        if depth == 0 {
            i
        } else {
            closing(p, i + 1, (depth - 1) as nat)
        }
    } else {
        closing(p, i + 1, depth)
    }
}

/// The number of commas among some pieces.
pub open spec fn commas(p: Seq<Piece>, a: int, b: int) -> nat
    decreases b - a,
{
    if a >= b {
        0
    } else if is_sign(p, a, ',') {
        commas(p, a + 1, b) + 1
    } else {
        commas(p, a + 1, b)
    }
}

/// Whether a list or a map is unpacked into arguments at `i`.
pub open spec fn unpacks(p: Seq<Piece>, i: int) -> bool {
    is_sign(p, i, '*') && (is_sign(p, i - 1, '(') || is_sign(p, i - 1, ','))
}

/// Whether all arguments among some pieces are written out.
pub open spec fn written_out(p: Seq<Piece>, a: int, b: int) -> bool {
    forall|k: int| a <= k < b ==> !#[trigger] unpacks(p, k)
}

/// Whether a number of a few digits stands at `i`.
pub open spec fn small(p: Seq<Piece>, i: int) -> bool {
    0 <= i < p.len() && match p[i] {
        Piece::Number(w) => w.len() <= 4,
        _ => false,
    }
}

/// Whether an argument ends before `i`.
pub open spec fn argument_ends(p: Seq<Piece>, i: int) -> bool {
    is_sign(p, i, ',') || is_sign(p, i, ')')
}

/// Whether the last of the arguments between `a` and `e` is a small number, and
/// `n` commas separate them.
pub open spec fn small_last(p: Seq<Piece>, a: int, e: int, n: nat) -> bool {
    commas(p, a, e) == n && is_sign(p, e - 2, ',') && small(p, e - 1)
}

/// Whether a statement starts with the piece at `i`. A sign that strips white space
/// may stand before it.
pub open spec fn starts(p: Seq<Piece>, i: int) -> bool {
    ||| i >= 1 && p[i - 1] is Begin
    ||| i >= 2 && (is_sign(p, i - 1, '-') || is_sign(p, i - 1, '+')) && p[i - 2] is Begin
}

/// How many macros and calls are open before `i`.
pub open spec fn macros_open(p: Seq<Piece>, i: int) -> int
    decreases i,
{
    if i <= 0 {
        0
    } else if starts(p, i - 1) && (is_word(p, i - 1, "macro"@) || is_word(p, i - 1, "call"@)) {
        macros_open(p, i - 1) + 1
    } else if starts(p, i - 1) && (is_word(p, i - 1, "endmacro"@) || is_word(
        p,
        i - 1,
        "endcall"@,
    )) {
        macros_open(p, i - 1) - 1
    } else {
        macros_open(p, i - 1)
    }
}

/// Whether no macro comes to be inside another one, from where a namespace could
/// carry it out, if the tag at `i` stands there.
pub open spec fn stays_inside(p: Seq<Piece>, i: int) -> bool {
    starts(p, i) && macros_open(p, i) > 0 ==> forall|j: int|
        0 <= j < p.len() ==> !#[trigger] is_word(p, j, "namespace"@)
}

/// Whether the test that divides is given a small number that is not zero.
pub open spec fn divides(p: Seq<Piece>, i: int) -> bool {
    &&& is_sign(p, i, '(')
    &&& small(p, i + 1)
    &&& match p[i + 1] {
        Piece::Number(w) => exists|k: int| 0 <= k < w.len() && #[trigger] w[k] != '0',
        _ => false,
    }
    &&& is_sign(p, i + 2, ')')
}

/// Whether a range is asked for without a step, or with a small one.
pub open spec fn counts(p: Seq<Piece>, i: int) -> bool {
    let e = closing(p, i + 1, 0);
    &&& is_sign(p, i, '(')
    &&& written_out(p, i + 1, e)
    &&& commas(p, i + 1, e) <= 1 || small_last(p, i + 1, e, 2)
}

/// How many digits stand right before `k`.
pub open spec fn digit_run(s: Seq<char>, k: int) -> nat
    decreases k,
{
    if 0 < k <= s.len() && digit(s[k - 1]) {
        digit_run(s, k - 1) + 1
    } else {
        0
    }
}

pub open spec fn ascii_only(s: Seq<char>) -> bool {
    forall|k: int| 0 <= k < s.len() ==> (#[trigger] s[k] as u32) < 128
}

/// Whether a quoted text can be used to format: its sizes are small, and keys in it
/// are made of simple characters.
pub open spec fn plain_format(s: Seq<char>) -> bool {
    &&& !s.contains('\\')
    &&& ascii_only(s) || !s.contains('(')
    &&& forall|k: int| 0 <= k <= s.len() ==> #[trigger] digit_run(s, k) <= 4
}

/// Whether text is indented by a small width.
pub open spec fn indents(p: Seq<Piece>, a: int, e: int) -> bool {
    &&& written_out(p, a, e)
    &&& forall|k: int| a <= k < e && #[trigger] is_word(p, k, "width"@) ==> is_sign(p, k + 1, '=')
        && small(p, k + 2) && argument_ends(p, k + 3)
    &&& {
        ||| is_sign(p, a, ')')
        ||| small(p, a) && argument_ends(p, a + 1)
        ||| 0 <= a < p.len() && p[a] is Word && is_sign(p, a + 1, '=')
    }
}

/// Filters whose arguments need a look.
pub open spec fn delicate(w: Seq<char>) -> bool {
    ||| w == "batch"@
    ||| w == "chain"@
    ||| w == "format"@
    ||| w == "indent"@
    ||| w == "map"@
    ||| w == "slice"@
    ||| w == "sort"@
    ||| w == "split"@
    ||| testing_filter(w)
}

/// Whether an attribute is mapped, or a filter whose arguments need no look.
pub open spec fn maps(p: Seq<Piece>, a: int) -> bool {
    ||| is_word(p, a, "attribute"@) && is_sign(p, a + 1, '=')
    ||| 0 <= a < p.len() && match p[a] {
        Piece::Quoted(s) => !s.contains('\\') && !delicate(s) && argument_ends(p, a + 1),
        _ => false,
    }
}

/// Whether no attribute is sorted by.
pub open spec fn sorts(p: Seq<Piece>, a: int, e: int) -> bool {
    written_out(p, a, e) && forall|k: int|
        a <= k < e ==> !#[trigger] is_word(p, k, "attribute"@)
}

/// Whether text is split without a limit, or with a small one.
pub open spec fn splits(p: Seq<Piece>, a: int, e: int) -> bool {
    written_out(p, a, e) && (commas(p, a, e) == 0 || small_last(p, a, e, 1))
}

/// Whether the word at `i` names a filter.
pub open spec fn names_filter(p: Seq<Piece>, i: int) -> bool {
    is_sign(p, i - 1, '|') || is_word(p, i - 1, "filter"@) && starts(p, i - 1)
}

/// Whether the filter that is named at `i` may have the arguments that it has.
pub open spec fn filter_fits(p: Seq<Piece>, i: int, w: Seq<char>) -> bool {
    let called = is_sign(p, i + 1, '(');
    let e = closing(p, i + 2, 0);
    if w == "batch"@ || w == "slice"@ {
        called ==> small(p, i + 2) && argument_ends(p, i + 3)
    } else if w == "chain"@ {
        false
    } else if w == "format"@ {
        is_sign(p, i - 1, '|') && i >= 2 && match p[i - 2] {
            Piece::Quoted(s) => plain_format(s),
            _ => false,
        } && !(i >= 3 && p[i - 3] is Quoted)
    } else if w == "indent"@ {
        called ==> indents(p, i + 2, e)
    } else if w == "map"@ {
        called ==> maps(p, i + 2)
    } else if w == "sort"@ {
        called ==> sorts(p, i + 2, e)
    } else if w == "split"@ {
        called ==> splits(p, i + 2, e)
    } else if testing_filter(w) {
        called ==> plain_arguments(p, i + 2)
    } else {
        true
    }
}

/// Whether more belongs to what stands before `i`.
pub open spec fn goes_on(p: Seq<Piece>, i: int) -> bool {
    ||| is_sign(p, i, '|') || is_sign(p, i, '.') || is_sign(p, i, '[') || is_sign(p, i, '(')
    ||| 0 <= i < p.len() && p[i] is Quoted
}

/// What a loop counts.
pub open spec fn loop_count(w: Seq<char>) -> bool {
    w == "index"@ || w == "index0"@ || w == "revindex"@ || w == "revindex0"@ || w == "length"@
        || w == "depth"@ || w == "depth0"@
}

/// Filters that give a number.
pub open spec fn counting_filter(w: Seq<char>) -> bool {
    w == "length"@ || w == "count"@ || w == "int"@ || w == "float"@
}

/// Whether the name of loops is never given to anything else.
pub open spec fn loops_alone(p: Seq<Piece>) -> bool {
    forall|j: int| 0 <= j < p.len() && #[trigger] is_word(p, j, "loop"@) ==> is_sign(p, j + 1, '.')
}

/// Whether what ends with the word at `k` is what a loop counts.
pub open spec fn counted(p: Seq<Piece>, k: int) -> bool {
    &&& 2 <= k < p.len()
    &&& match p[k] {
        Piece::Word(w) => loop_count(w),
        _ => false,
    }
    &&& is_sign(p, k - 1, '.')
    &&& is_word(p, k - 2, "loop"@)
    &&& !is_sign(p, k - 3, '.')
    &&& loops_alone(p)
}

/// Whether a number stands right before the piece behind `k`.
pub open spec fn number_before(p: Seq<Piece>, k: int) -> bool {
    0 <= k < p.len() && match p[k] {
        Piece::Number(_) => is_sign(p, k - 1, '.') ==> k >= 2 && p[k - 2] is Number,
        Piece::Word(w) => counting_filter(w) && is_sign(p, k - 1, '|') || counted(p, k),
        _ => false,
    }
}

/// Whether a number starts at `k`, and nothing else belongs to it.
pub open spec fn number_after(p: Seq<Piece>, k: int) -> bool {
    0 <= k < p.len() && match p[k] {
        Piece::Number(_) => if is_sign(p, k + 1, '.') {
            k + 2 < p.len() && p[k + 2] is Number && !goes_on(p, k + 3)
        } else {
            !goes_on(p, k + 1)
        },
        Piece::Word(_) => counted(p, k + 2) && !goes_on(p, k + 3),
        _ => false,
    }
}

/// Whether the star at `i` unpacks arguments, stands for a power, repeats a quoted
/// text, or multiplies two numbers.
pub open spec fn star_fits(p: Seq<Piece>, i: int) -> bool {
    ||| is_sign(p, i - 1, '*') || is_sign(p, i + 1, '*')
    ||| unpacks(p, i)
    ||| i >= 1 && p[i - 1] is Quoted
    ||| i + 1 < p.len() && p[i + 1] is Quoted && !goes_on(p, i + 2)
    ||| number_before(p, i - 1) && number_after(p, i + 1)
}

/// Whether the arguments from `i` on are quoted texts and numbers only, and none
/// of them names the test that divides.
pub open spec fn plain_arguments(p: Seq<Piece>, i: int) -> bool
    decreases p.len() - i,
{
    if i < 0 || i >= p.len() {
        false
    } else {
        match p[i] {
            Piece::Sign(_) => is_sign(p, i, ')') || (is_sign(p, i, ',') && plain_arguments(
                p,
                i + 1,
            )),
            Piece::Number(_) => plain_arguments(p, i + 1),
            Piece::Quoted(s) => !s.contains('\\') && s != "divisibleby"@ && argument_ends(p, i + 1)
                && plain_arguments(p, i + 1),
            _ => false,
        }
    }
}

/// Whether the bracket of a subscript closes before another colon or bracket.
pub open spec fn closes_next(p: Seq<Piece>, i: int) -> bool
    decreases p.len() - i,
{
    if i < 0 || i >= p.len() {
        false
    } else {
        match p[i] {
            Piece::Sign(_) => is_sign(p, i, ']') || (!is_sign(p, i, ':') && !is_bracket(p, i)
                && closes_next(p, i + 1)),
            Piece::End => false,
            _ => closes_next(p, i + 1),
        }
    }
}

/// Whether the colon at `i` stands behind a quoted key of a map.
pub open spec fn behind_key(p: Seq<Piece>, i: int) -> bool {
    i >= 2 && p[i - 1] is Quoted && (is_sign(p, i - 2, '{') || is_sign(p, i - 2, ','))
}

/// Whether the word at `j` names an attribute, is followed by the name of one, or
/// is given a namespace.
pub open spec fn keeps_apart(p: Seq<Piece>, j: int) -> bool {
    ||| is_sign(p, j - 1, '.')
    ||| is_sign(p, j + 1, '.') && j + 2 < p.len() && p[j + 2] is Word
    ||| is_sign(p, j + 1, '=') && is_word(p, j + 2, "namespace"@)
}

/// Whether the namespace that is made at `i` is given to a name that is used for
/// its attributes alone. Such a namespace never comes to stand in a value.
pub open spec fn kept_apart(p: Seq<Piece>, i: int) -> bool {
    &&& i >= 3
    &&& is_word(p, i - 3, "set"@)
    &&& p[i - 2] is Word
    &&& is_sign(p, i - 1, '=')
    &&& forall|j: int| 0 <= j < p.len() && #[trigger] p[j] == p[i - 2] ==> keeps_apart(p, j)
}

/// Words that are out of place but as the name of an attribute.
pub open spec fn shunned(w: Seq<char>) -> bool {
    w == "debug"@ || w == "recursive"@ || w == "self"@ || w == "super"@
}

/// Tags that work with other templates.
pub open spec fn shunned_tag(w: Seq<char>) -> bool {
    w == "extends"@ || w == "from"@ || w == "import"@
}

/// Tags that may make macros.
pub open spec fn making_tag(w: Seq<char>) -> bool {
    w == "macro"@ || w == "call"@ || w == "include"@
}

/// Whether a word may stand where it does.
pub open spec fn word_fits(p: Seq<Piece>, i: int, w: Seq<char>) -> bool {
    if shunned(w) {
        is_sign(p, i - 1, '.')
    } else if shunned_tag(w) {
        !starts(p, i)
    } else if making_tag(w) {
        stays_inside(p, i)
    } else if w == "cycle"@ {
        is_sign(p, i + 1, '(') ==> !is_sign(p, i + 2, ')') && !is_sign(p, i + 2, '*')
    } else if w == "divisibleby"@ {
        is_sign(p, i - 1, '.') || divides(p, i + 1)
    } else if w == "range"@ {
        is_sign(p, i - 1, '.') || counts(p, i + 1)
    } else if w == "namespace"@ {
        kept_apart(p, i)
    } else {
        true
    }
}

/// Whether a piece may stand where it does.
pub open spec fn fits(p: Seq<Piece>, i: int) -> bool {
    match p[i] {
        Piece::Word(w) => word_fits(p, i, w) && (names_filter(p, i) ==> filter_fits(p, i, w)),
        Piece::Number(w) => {
            &&& digits_only(w)
            &&& is_sign(p, i + 1, '.') && i + 2 < p.len() ==> !(p[i + 2] is Word)
        },
        Piece::Sign(_) => {
            &&& is_sign(p, i, '*') ==> star_fits(p, i)
            &&& is_sign(p, i, ':') ==> behind_key(p, i) || closes_next(p, i + 1)
        },
        _ => true,
    }
}

/// Whether a template is handed to the template engine. It is shorter than the
/// engine can count columns, and every piece in its tags fits.
pub open spec fn supported(t: Seq<char>) -> bool {
    let p = pieces(t, 0, Place::Text, 0);
    t.len() < 65535 && forall|i: int| 0 <= i < p.len() ==> #[trigger] fits(p, i)
}

// ---------------------------------------------------------------------------
// Taking a template apart
// ---------------------------------------------------------------------------

/// A piece, with its text.
enum CodePiece {
    Word(String),
    Number(String),
    Quoted(String),
    Sign(u32),
    Begin,
    End,
}

impl View for CodePiece {
    type V = Piece;

    closed spec fn view(&self) -> Piece {
        match self {
            CodePiece::Word(s) => Piece::Word(s@),
            CodePiece::Number(s) => Piece::Number(s@),
            CodePiece::Quoted(s) => Piece::Quoted(s@),
            CodePiece::Sign(c) => Piece::Sign(*c),
            CodePiece::Begin => Piece::Begin,
            CodePiece::End => Piece::End,
        }
    }
}

/// What the pieces are.
spec fn views(v: Seq<CodePiece>) -> Seq<Piece> {
    v.map_values(|p: CodePiece| p@)
}

fn is_word_char(c: char) -> (b: bool)
    ensures
        b == word_char(c),
{
    ('a' <= c && c <= 'z') || ('A' <= c && c <= 'Z') || ('0' <= c && c <= '9') || c == '_'
}

fn is_digit(c: char) -> (b: bool)
    ensures
        b == digit(c),
{
    '0' <= c && c <= '9'
}

fn is_space(c: char) -> (b: bool)
    ensures
        b == space(c),
{
    c == ' ' || c == '\t' || c == '\n' || c == '\r' || c == '\x0C'
}

/// The end of a run.
fn find_run_end(t: &Vec<char>, i: usize) -> (e: usize)
    requires
        i <= t@.len(),
    ensures
        e == run_end(t@, i as int),
        i <= e <= t@.len(),
{
    let mut e: usize = i;
    while e < t.len() && is_word_char(t[e])
        invariant
            i <= e <= t@.len(),
            run_end(t@, e as int) == run_end(t@, i as int),
        decreases t@.len() - e,
    {
        e = e + 1;
    }
    e
}

/// The end of a quoted text.
fn find_quote_end(t: &Vec<char>, i: usize, quote: char) -> (r: Option<usize>)
    requires
        i <= t@.len() < usize::MAX - 2,
    ensures
        match quote_end(t@, i as int, quote) {
            Some(e) => r is Some && r->0 == e && i <= e < t@.len(),
            None => r is None,
        },
{
    let mut e: usize = i;
    while e < t.len()
        invariant
            i <= e <= t@.len() + 1,
            t@.len() < usize::MAX - 2,
            quote_end(t@, e as int, quote) == quote_end(t@, i as int, quote),
        decreases t@.len() + 2 - e,
    {
        if t[e] == '\\' {
            e = e + 2;
        } else if t[e] == quote {
            return Some(e);
        } else {
            e = e + 1;
        }
    }
    None
}

/// The end of a comment.
fn find_comment_end(t: &Vec<char>, i: usize) -> (r: Option<usize>)
    requires
        i <= t@.len() < usize::MAX - 2,
    ensures
        match comment_end(t@, i as int) {
            Some(e) => r is Some && r->0 == e && i <= e && e + 1 < t@.len(),
            None => r is None,
        },
{
    let mut e: usize = i;
    while e + 1 < t.len()
        invariant
            i <= e <= t@.len(),
            t@.len() < usize::MAX - 2,
            comment_end(t@, e as int) == comment_end(t@, i as int),
        decreases t@.len() - e,
    {
        if t[e] == '#' && t[e + 1] == '}' {
            return Some(e);
        }
        e = e + 1;
    }
    None
}

/// The next place where no space stands.
fn skip_spaces(t: &Vec<char>, i: usize) -> (e: usize)
    requires
        i <= t@.len(),
    ensures
        e == after_spaces(t@, i as int),
        i <= e <= t@.len(),
{
    let mut e: usize = i;
    while e < t.len() && is_space(t[e])
        invariant
            i <= e <= t@.len(),
            after_spaces(t@, e as int) == after_spaces(t@, i as int),
        decreases t@.len() - e,
    {
        e = e + 1;
    }
    e
}

/// The place behind a sign that strips white space.
fn skip_sign(t: &Vec<char>, i: usize) -> (e: usize)
    requires
        i <= t@.len() < usize::MAX - 2,
    ensures
        e == after_sign(t@, i as int),
        i <= e <= t@.len(),
{
    if i < t.len() && (t[i] == '-' || t[i] == '+') {
        i + 1
    } else {
        i
    }
}

/// The end of a statement that is a name alone.
fn find_bare_tag(t: &Vec<char>, i: usize, name: &str) -> (r: Option<usize>)
    requires
        i <= t@.len() < 65535,
        name@.len() < 65535,
    ensures
        match bare_tag(t@, i as int, name@) {
            Some(e) => r is Some && r->0 == e && i < e <= t@.len(),
            None => r is None,
        },
{
    let word: Vec<char> = characters(name);
    let n: usize = word.len();
    let a: usize = skip_spaces(t, skip_sign(t, i));
    if n > t.len() - a {
        return None;
    }
    let mut k: usize = 0;
    while k < n
        invariant
            k <= n,
            n == word@.len(),
            word@ == name@,
            a + n <= t@.len() < 65535,
            a == after_spaces(t@, after_sign(t@, i as int)),
            forall|j: int| 0 <= j < k ==> t@[a + j] == #[trigger] word@[j],
        decreases n - k,
    {
        if t[a + k] != word[k] {
            proof {
                let found = t@.subrange(a as int, a + n);
                assert(found[k as int] != name@[k as int]);
            }
            return None;
        }
        k = k + 1;
    }
    assert(t@.subrange(a as int, a + n) =~= name@);
    let b: usize = skip_sign(t, skip_spaces(t, a + n));
    proof {
        lemma_bare_tag(t@, i as int, name@);
    }
    if b + 1 < t.len() && t[b] == '%' && t[b + 1] == '}' {
        Some(b + 2)
    } else {
        None
    }
}

/// The end of raw text.
fn find_raw_end(t: &Vec<char>, i: usize) -> (r: Option<usize>)
    requires
        i <= t@.len() < 65535,
    ensures
        match raw_end(t@, i as int) {
            Some(e) => r is Some && r->0 == e && i < e <= t@.len(),
            None => r is None,
        },
{
    proof {
        reveal_strlit("endraw");
    }
    let mut e: usize = i;
    while e + 1 < t.len()
        invariant
            i <= e <= t@.len() < 65535,
            "endraw"@.len() == 6,
            raw_end(t@, e as int) == raw_end(t@, i as int),
        decreases t@.len() - e,
    {
        if t[e] == '{' && t[e + 1] == '%' {
            let found: Option<usize> = find_bare_tag(t, e + 2, "endraw");
            match found {
                Some(_) => {
                    return found;
                },
                None => {},
            }
        }
        e = e + 1;
    }
    None
}

/// The end of a tag.
fn find_tag_end(t: &Vec<char>, i: usize, place: Place) -> (r: Option<usize>)
    requires
        i < t@.len() < usize::MAX - 2,
    ensures
        match tag_end(t@, i as int, place) {
            Some(e) => r is Some && r->0 == e && i < e <= t@.len(),
            None => r is None,
        },
{
    let j: usize = if t[i] == '-' || t[i] == '+' {
        i + 1
    } else {
        i
    };
    let c: char = match place {
        Place::Expression => '}',
        _ => '%',
    };
    if j + 1 < t.len() && t[j] == c && t[j + 1] == '}' {
        Some(j + 2)
    } else {
        None
    }
}

/// Takes a template apart.
#[verifier::rlimit(40)]
fn take_apart(t: &Vec<char>) -> (v: Vec<CodePiece>)
    requires
        t@.len() < 65535,
    ensures
        views(v@) == pieces(t@, 0, Place::Text, 0),
{
    let mut v: Vec<CodePiece> = Vec::new();
    let mut i: usize = 0;
    let mut place: Place = Place::Text;
    let mut depth: i64 = 0;
    let ghost all = pieces(t@, 0, Place::Text, 0);
    assert(views(v@) + all =~= all);
    while i < t.len()
        invariant
            i <= t@.len() < 65535,
            -(i as int) <= depth <= i,
            all == pieces(t@, 0, Place::Text, 0),
            all == views(v@) + pieces(t@, i as int, place, depth as int),
        decreases t@.len() - i,
    {
        let c: char = t[i];
        let ghost given = v@;
        let ghost rest = pieces(t@, i as int, place, depth as int);
        match place {
            Place::Text => {
                if c == '{' && i + 1 < t.len() && t[i + 1] == '{' {
                    place = Place::Expression;
                    i = i + 2;
                } else if c == '{' && i + 1 < t.len() && t[i + 1] == '%' {
                    proof {
                        reveal_strlit("raw");
                    }
                    match find_bare_tag(t, i + 2, "raw") {
                        Some(a) => match find_raw_end(t, a) {
                            Some(e) => {
                                i = e;
                            },
                            None => {
                                assert(views(v@) + Seq::<Piece>::empty() =~= views(v@));
                                return v;
                            },
                        },
                        None => {
                            place = Place::Statement;
                            i = i + 2;
                            v.push(CodePiece::Begin);
                            assert(views(v@) =~= views(given).push(Piece::Begin));
                            assert(views(given) + rest =~= views(v@) + pieces(
                                t@,
                                i as int,
                                place,
                                depth as int,
                            ));
                            continue ;
                        },
                    }
                } else if c == '{' && i + 1 < t.len() && t[i + 1] == '#' {
                    match find_comment_end(t, i + 2) {
                        Some(e) => {
                            i = e + 2;
                        },
                        None => {
                            assert(views(v@) + Seq::<Piece>::empty() =~= views(v@));
                            return v;
                        },
                    }
                } else {
                    i = i + 1;
                }
                assert(rest == pieces(t@, i as int, place, depth as int));
            },
            _ => {
                if is_space(c) {
                    i = i + 1;
                    continue ;
                }
                let end: Option<usize> = if depth == 0 {
                    find_tag_end(t, i, place)
                } else {
                    None
                };
                let mut piece: CodePiece = CodePiece::End;
                match end {
                    Some(e) => {
                        i = e;
                        place = Place::Text;
                    },
                    None => {
                        if c == '\'' || c == '"' {
                            match find_quote_end(t, i + 1, c) {
                                Some(e) => {
                                    piece = CodePiece::Quoted(text_between(t, i + 1, e));
                                    i = e + 1;
                                },
                                None => {
                                    assert(views(v@) + Seq::<Piece>::empty() =~= views(v@));
                                    return v;
                                },
                            }
                        } else if is_word_char(c) {
                            let e: usize = find_run_end(t, i);
                            assert(e > i) by {
                                lemma_run_end(t@, i + 1);
                            }
                            let run: String = text_between(t, i, e);
                            piece = if is_digit(c) {
                                CodePiece::Number(run)
                            } else {
                                CodePiece::Word(run)
                            };
                            i = e;
                        } else {
                            piece = CodePiece::Sign(c as u32);
                            if c == '(' || c == '[' || c == '{' {
                                depth = depth + 1;
                            } else if c == ')' || c == ']' || c == '}' {
                                depth = depth - 1;
                            }
                            i = i + 1;
                        }
                    },
                }
                let ghost seen = piece@;
                assert(rest =~= seq![seen] + pieces(t@, i as int, place, depth as int));
                v.push(piece);
                assert(views(v@) =~= views(given).push(seen));
                assert(views(given) + rest =~= views(v@) + pieces(
                    t@,
                    i as int,
                    place,
                    depth as int,
                ));
            },
        }
    }
    assert(views(v@) + Seq::<Piece>::empty() =~= views(v@));
    v
}

// ---------------------------------------------------------------------------
// Looking at the pieces
// ---------------------------------------------------------------------------

fn has_sign(v: &Vec<CodePiece>, i: usize, c: char) -> (b: bool)
    ensures
        b == is_sign(views(v@), i as int, c),
{
    if i < v.len() {
        match &v[i] {
            CodePiece::Sign(d) => *d == c as u32,
            _ => false,
        }
    } else {
        false
    }
}

fn has_word(v: &Vec<CodePiece>, i: usize, w: &str) -> (b: bool)
    ensures
        b == is_word(views(v@), i as int, w@),
{
    if i < v.len() {
        match &v[i] {
            CodePiece::Word(s) => same_text(s.as_str(), w),
            _ => false,
        }
    } else {
        false
    }
}

/// Whether some word stands at a place.
fn has_a_word(v: &Vec<CodePiece>, i: usize) -> (b: bool)
    ensures
        b == (i < v@.len() && views(v@)[i as int] is Word),
{
    if i < v.len() {
        match &v[i] {
            CodePiece::Word(_) => true,
            _ => false,
        }
    } else {
        false
    }
}

fn is_shunned(w: &str) -> (b: bool)
    ensures
        b == shunned(w@),
{
    same_text(w, "debug") || same_text(w, "recursive") || same_text(w, "self") || same_text(
        w,
        "super",
    )
}

fn is_shunned_tag(w: &str) -> (b: bool)
    ensures
        b == shunned_tag(w@),
{
    same_text(w, "extends") || same_text(w, "from") || same_text(w, "import")
}

fn is_delicate(w: &str) -> (b: bool)
    ensures
        b == delicate(w@),
{
    same_text(w, "batch") || same_text(w, "chain") || same_text(w, "format") || same_text(
        w,
        "indent",
    ) || same_text(w, "map") || same_text(w, "slice") || same_text(w, "sort") || same_text(
        w,
        "split",
    ) || is_testing_filter(w)
}

fn is_testing_filter(w: &str) -> (b: bool)
    ensures
        b == testing_filter(w@),
{
    same_text(w, "select") || same_text(w, "reject") || same_text(w, "selectattr") || same_text(
        w,
        "rejectattr",
    )
}

/// Whether a text holds a character.
fn has_char(s: &str, c: char) -> (b: bool)
    ensures
        b == s@.contains(c),
{
    let chars: Vec<char> = characters(s);
    let mut k: usize = 0;
    while k < chars.len()
        invariant
            k <= chars@.len(),
            chars@ == s@,
            forall|m: int| 0 <= m < k ==> #[trigger] s@[m] != c,
        decreases chars@.len() - k,
    {
        if chars[k] == c {
            assert(s@[k as int] == c);
            return true;
        }
        k = k + 1;
    }
    false
}

fn all_digits(s: &str) -> (b: bool)
    ensures
        b == digits_only(s@),
{
    let chars: Vec<char> = characters(s);
    let mut k: usize = 0;
    while k < chars.len()
        invariant
            k <= chars@.len(),
            chars@ == s@,
            forall|m: int| 0 <= m < k ==> digit(#[trigger] s@[m]),
        decreases chars@.len() - k,
    {
        if !is_digit(chars[k]) {
            assert(!digit(s@[k as int]));
            return false;
        }
        k = k + 1;
    }
    true
}

fn has_plain_arguments(v: &Vec<CodePiece>, from: usize) -> (b: bool)
    ensures
        b == plain_arguments(views(v@), from as int),
{
    let ghost p = views(v@);
    let mut i: usize = from;
    while i < v.len()
        invariant
            p == views(v@),
            p.len() == v@.len(),
            plain_arguments(p, i as int) == plain_arguments(p, from as int),
        decreases v@.len() - i,
    {
        assert(p[i as int] == v@[i as int]@);
        match &v[i] {
            CodePiece::Sign(_) => {
                if !has_sign(v, i, ',') {
                    return has_sign(v, i, ')');
                }
            },
            CodePiece::Number(_) => {},
            CodePiece::Quoted(s) => {
                if has_char(s.as_str(), '\\') || same_text(s.as_str(), "divisibleby")
                    || !does_argument_end(v, i + 1) {
                    return false;
                }
            },
            _ => {
                return false;
            },
        }
        i = i + 1;
    }
    false
}

fn does_close_next(v: &Vec<CodePiece>, from: usize) -> (b: bool)
    ensures
        b == closes_next(views(v@), from as int),
{
    let ghost p = views(v@);
    let mut i: usize = from;
    while i < v.len()
        invariant
            p == views(v@),
            p.len() == v@.len(),
            closes_next(p, i as int) == closes_next(p, from as int),
        decreases v@.len() - i,
    {
        assert(p[i as int] == v@[i as int]@);
        match &v[i] {
            CodePiece::Sign(_) => {
                if has_sign(v, i, ']') {
                    return true;
                }
                if has_sign(v, i, ':') || has_sign(v, i, '(') || has_sign(v, i, ')') || has_sign(
                    v,
                    i,
                    '[',
                ) || has_sign(v, i, '{') || has_sign(v, i, '}') {
                    return false;
                }
            },
            CodePiece::End => {
                return false;
            },
            _ => {},
        }
        i = i + 1;
    }
    false
}

fn is_behind_key(v: &Vec<CodePiece>, i: usize) -> (b: bool)
    requires
        i < v@.len(),
    ensures
        b == behind_key(views(v@), i as int),
{
    if i < 2 {
        return false;
    }
    assert(views(v@)[i - 1] == v@[i - 1]@);
    let quoted: bool = match &v[i - 1] {
        CodePiece::Quoted(_) => true,
        _ => false,
    };
    quoted && (has_sign(v, i - 2, '{') || has_sign(v, i - 2, ','))
}

fn does_keep_apart(v: &Vec<CodePiece>, j: usize) -> (b: bool)
    requires
        j < v@.len() < usize::MAX - 2,
    ensures
        b == keeps_apart(views(v@), j as int),
{
    (j > 0 && has_sign(v, j - 1, '.')) || (has_sign(v, j + 1, '.') && has_a_word(v, j + 2)) || (
    has_sign(v, j + 1, '=') && has_word(v, j + 2, "namespace"))
}

fn is_kept_apart(v: &Vec<CodePiece>, i: usize) -> (b: bool)
    requires
        i < v@.len() < usize::MAX - 2,
    ensures
        b == kept_apart(views(v@), i as int),
{
    let ghost p = views(v@);
    if i < 3 || !has_word(v, i - 3, "set") || !has_sign(v, i - 1, '=') {
        return false;
    }
    assert(p[i - 2] == v@[i - 2]@);
    let name: &String = match &v[i - 2] {
        CodePiece::Word(s) => s,
        _ => {
            return false;
        },
    };
    let mut j: usize = 0;
    while j < v.len()
        invariant
            j <= v@.len() < usize::MAX - 2,
            p == views(v@),
            p.len() == v@.len(),
            3 <= i < v@.len(),
            p[i - 2] == Piece::Word(name@),
            forall|k: int| 0 <= k < j && #[trigger] p[k] == p[i - 2] ==> keeps_apart(p, k),
        decreases v@.len() - j,
    {
        if has_word(v, j, name.as_str()) && !does_keep_apart(v, j) {
            assert(p[j as int] == p[i - 2]);
            return false;
        }
        j = j + 1;
    }
    true
}

/// Whether a quoted text stands at a place.
fn has_quoted(v: &Vec<CodePiece>, i: usize) -> (b: bool)
    ensures
        b == (i < v@.len() && views(v@)[i as int] is Quoted),
{
    if i < v.len() {
        match &v[i] {
            CodePiece::Quoted(_) => true,
            _ => false,
        }
    } else {
        false
    }
}

/// Whether a number stands at a place.
fn has_number(v: &Vec<CodePiece>, i: usize) -> (b: bool)
    ensures
        b == (i < v@.len() && views(v@)[i as int] is Number),
{
    if i < v.len() {
        match &v[i] {
            CodePiece::Number(_) => true,
            _ => false,
        }
    } else {
        false
    }
}

/// Whether a statement starts right behind a place.
fn has_begin(v: &Vec<CodePiece>, i: usize) -> (b: bool)
    ensures
        b == (i < v@.len() && views(v@)[i as int] is Begin),
{
    if i < v.len() {
        match &v[i] {
            CodePiece::Begin => true,
            _ => false,
        }
    } else {
        false
    }
}

/// The bracket that closes the arguments from a place on.
fn find_closing(v: &Vec<CodePiece>, from: usize) -> (e: usize)
    ensures
        e == closing(views(v@), from as int, 0),
        e <= v@.len(),
        from <= v@.len() ==> from <= e,
{
    let ghost p = views(v@);
    let mut i: usize = from;
    let mut depth: usize = 0;
    while i < v.len()
        invariant
            p == views(v@),
            p.len() == v@.len(),
            from <= i,
            from <= v@.len() ==> i <= v@.len(),
            depth <= i - from,
            closing(p, i as int, depth as nat) == closing(p, from as int, 0),
        decreases v@.len() - i,
    {
        if has_sign(v, i, '(') || has_sign(v, i, '[') || has_sign(v, i, '{') {
            depth = depth + 1;
        } else if has_sign(v, i, ')') || has_sign(v, i, ']') || has_sign(v, i, '}') {
            if depth == 0 {
                return i;
            }
            depth = depth - 1;
        }
        i = i + 1;
    }
    v.len()
}

fn count_commas(v: &Vec<CodePiece>, a: usize, b: usize) -> (n: usize)
    requires
        b <= v@.len(),
    ensures
        n == commas(views(v@), a as int, b as int),
{
    let ghost p = views(v@);
    let mut n: usize = 0;
    let mut k: usize = a;
    while k < b
        invariant
            p == views(v@),
            a <= k,
            a <= b ==> k <= b,
            n <= k - a,
            n + commas(p, k as int, b as int) == commas(p, a as int, b as int),
        decreases b - k,
    {
        if has_sign(v, k, ',') {
            n = n + 1;
        }
        k = k + 1;
    }
    n
}

fn does_unpack(v: &Vec<CodePiece>, i: usize) -> (b: bool)
    ensures
        b == unpacks(views(v@), i as int),
{
    has_sign(v, i, '*') && i > 0 && (has_sign(v, i - 1, '(') || has_sign(v, i - 1, ','))
}

fn are_written_out(v: &Vec<CodePiece>, a: usize, b: usize) -> (r: bool)
    requires
        b <= v@.len(),
    ensures
        r == written_out(views(v@), a as int, b as int),
{
    let ghost p = views(v@);
    let mut k: usize = a;
    while k < b
        invariant
            p == views(v@),
            a <= k,
            forall|j: int| a <= j < k && j < b ==> !#[trigger] unpacks(p, j),
        decreases b - k,
    {
        if does_unpack(v, k) {
            assert(unpacks(p, k as int));
            return false;
        }
        k = k + 1;
    }
    true
}

fn is_small(v: &Vec<CodePiece>, i: usize) -> (b: bool)
    ensures
        b == small(views(v@), i as int),
{
    if i < v.len() {
        assert(views(v@)[i as int] == v@[i as int]@);
        match &v[i] {
            CodePiece::Number(w) => characters(w.as_str()).len() <= 4,
            _ => false,
        }
    } else {
        false
    }
}

fn does_argument_end(v: &Vec<CodePiece>, i: usize) -> (b: bool)
    ensures
        b == argument_ends(views(v@), i as int),
{
    has_sign(v, i, ',') || has_sign(v, i, ')')
}

fn is_small_last(v: &Vec<CodePiece>, a: usize, e: usize, n: usize) -> (b: bool)
    requires
        e <= v@.len(),
    ensures
        b == small_last(views(v@), a as int, e as int, n as nat),
{
    count_commas(v, a, e) == n && e >= 2 && has_sign(v, e - 2, ',') && is_small(v, e - 1)
}

fn does_start(v: &Vec<CodePiece>, i: usize) -> (b: bool)
    requires
        i < v@.len(),
    ensures
        b == starts(views(v@), i as int),
{
    (i >= 1 && has_begin(v, i - 1)) || (i >= 2 && (has_sign(v, i - 1, '-') || has_sign(
        v,
        i - 1,
        '+',
    )) && has_begin(v, i - 2))
}

/// How many macros and calls are open.
fn count_macros(v: &Vec<CodePiece>, i: usize) -> (n: i64)
    requires
        i <= v@.len() <= 65535,
    ensures
        n == macros_open(views(v@), i as int),
{
    let ghost p = views(v@);
    let mut n: i64 = 0;
    let mut k: usize = 0;
    while k < i
        invariant
            k <= i <= v@.len() <= 65535,
            p == views(v@),
            -(k as int) <= n <= k,
            n == macros_open(p, k as int),
        decreases i - k,
    {
        if does_start(v, k) {
            if has_word(v, k, "macro") || has_word(v, k, "call") {
                n = n + 1;
            } else if has_word(v, k, "endmacro") || has_word(v, k, "endcall") {
                n = n - 1;
            }
        }
        k = k + 1;
    }
    n
}

fn does_stay_inside(v: &Vec<CodePiece>, i: usize) -> (b: bool)
    requires
        i < v@.len() <= 65535,
    ensures
        b == stays_inside(views(v@), i as int),
{
    let ghost p = views(v@);
    if !does_start(v, i) || count_macros(v, i) <= 0 {
        return true;
    }
    let mut j: usize = 0;
    while j < v.len()
        invariant
            p == views(v@),
            p.len() == v@.len(),
            j <= v@.len(),
            starts(p, i as int) && macros_open(p, i as int) > 0,
            forall|k: int| 0 <= k < j ==> !#[trigger] is_word(p, k, "namespace"@),
        decreases v@.len() - j,
    {
        if has_word(v, j, "namespace") {
            assert(is_word(p, j as int, "namespace"@));
            return false;
        }
        j = j + 1;
    }
    true
}

fn is_making_tag(w: &str) -> (b: bool)
    ensures
        b == making_tag(w@),
{
    same_text(w, "macro") || same_text(w, "call") || same_text(w, "include")
}

/// Whether a text is made of zeros.
fn all_zeros(s: &str) -> (b: bool)
    ensures
        !b == exists|k: int| 0 <= k < s@.len() && #[trigger] s@[k] != '0',
{
    let chars: Vec<char> = characters(s);
    let mut k: usize = 0;
    while k < chars.len()
        invariant
            k <= chars@.len(),
            chars@ == s@,
            forall|m: int| 0 <= m < k ==> #[trigger] s@[m] == '0',
        decreases chars@.len() - k,
    {
        if chars[k] != '0' {
            assert(s@[k as int] != '0');
            return false;
        }
        k = k + 1;
    }
    true
}

fn does_divide(v: &Vec<CodePiece>, i: usize) -> (b: bool)
    requires
        i <= v@.len() <= 65535,
    ensures
        b == divides(views(v@), i as int),
{
    if !has_sign(v, i, '(') || !is_small(v, i + 1) || !has_sign(v, i + 2, ')') {
        return false;
    }
    assert(views(v@)[i + 1] == v@[i + 1]@);
    match &v[i + 1] {
        CodePiece::Number(w) => !all_zeros(w.as_str()),
        _ => false,
    }
}

fn does_count(v: &Vec<CodePiece>, i: usize) -> (b: bool)
    requires
        i <= v@.len() <= 65535,
    ensures
        b == counts(views(v@), i as int),
{
    if !has_sign(v, i, '(') {
        return false;
    }
    let e: usize = find_closing(v, i + 1);
    are_written_out(v, i + 1, e) && (count_commas(v, i + 1, e) <= 1 || is_small_last(
        v,
        i + 1,
        e,
        2,
    ))
}

/// Whether a text has characters of the simplest kind only.
fn is_ascii_only(s: &str) -> (b: bool)
    ensures
        b == ascii_only(s@),
{
    let chars: Vec<char> = characters(s);
    let mut k: usize = 0;
    while k < chars.len()
        invariant
            k <= chars@.len(),
            chars@ == s@,
            forall|m: int| 0 <= m < k ==> (#[trigger] s@[m] as u32) < 128,
        decreases chars@.len() - k,
    {
        if chars[k] as u32 >= 128 {
            assert(s@[k as int] as u32 >= 128);
            return false;
        }
        k = k + 1;
    }
    true
}

/// Whether no long number stands in a text.
fn has_short_runs(s: &str) -> (b: bool)
    ensures
        b == forall|k: int| 0 <= k <= s@.len() ==> #[trigger] digit_run(s@, k) <= 4,
{
    let chars: Vec<char> = characters(s);
    let mut run: usize = 0;
    let mut k: usize = 0;
    while k < chars.len()
        invariant
            k <= chars@.len(),
            chars@ == s@,
            run == digit_run(s@, k as int),
            run <= 4,
            forall|m: int| 0 <= m <= k ==> #[trigger] digit_run(s@, m) <= 4,
        decreases chars@.len() - k,
    {
        if is_digit(chars[k]) {
            run = run + 1;
        } else {
            run = 0;
        }
        k = k + 1;
        assert(run == digit_run(s@, k as int));
        if run > 4 {
            return false;
        }
    }
    true
}

fn is_plain_format(s: &str) -> (b: bool)
    ensures
        b == plain_format(s@),
{
    !has_char(s, '\\') && (is_ascii_only(s) || !has_char(s, '(')) && has_short_runs(s)
}

fn does_indent(v: &Vec<CodePiece>, a: usize, e: usize) -> (b: bool)
    requires
        a <= v@.len() + 2,
        e <= v@.len() <= 65535,
    ensures
        b == indents(views(v@), a as int, e as int),
{
    let ghost p = views(v@);
    if !are_written_out(v, a, e) {
        return false;
    }
    let mut k: usize = a;
    while k < e
        invariant
            p == views(v@),
            a <= k,
            e <= v@.len() <= 65535,
            forall|j: int|
                a <= j < k && j < e && #[trigger] is_word(p, j, "width"@) ==> is_sign(p, j + 1, '=')
                    && small(p, j + 2) && argument_ends(p, j + 3),
        decreases e - k,
    {
        if has_word(v, k, "width") && !(has_sign(v, k + 1, '=') && is_small(v, k + 2)
            && does_argument_end(v, k + 3)) {
            assert(is_word(p, k as int, "width"@));
            return false;
        }
        k = k + 1;
    }
    has_sign(v, a, ')') || (is_small(v, a) && does_argument_end(v, a + 1)) || (has_a_word(v, a)
        && has_sign(v, a + 1, '='))
}

fn does_map(v: &Vec<CodePiece>, a: usize) -> (b: bool)
    requires
        a <= v@.len() + 2,
        v@.len() <= 65535,
    ensures
        b == maps(views(v@), a as int),
{
    if has_word(v, a, "attribute") && has_sign(v, a + 1, '=') {
        return true;
    }
    if a < v.len() {
        assert(views(v@)[a as int] == v@[a as int]@);
        match &v[a] {
            CodePiece::Quoted(s) => !has_char(s.as_str(), '\\') && !is_delicate(s.as_str())
                && does_argument_end(v, a + 1),
            _ => false,
        }
    } else {
        false
    }
}

fn does_sort(v: &Vec<CodePiece>, a: usize, e: usize) -> (b: bool)
    requires
        e <= v@.len() <= 65535,
    ensures
        b == sorts(views(v@), a as int, e as int),
{
    let ghost p = views(v@);
    let mut k: usize = a;
    while k < e
        invariant
            p == views(v@),
            a <= k,
            forall|j: int| a <= j < k && j < e ==> !#[trigger] is_word(p, j, "attribute"@),
        decreases e - k,
    {
        if has_word(v, k, "attribute") {
            assert(is_word(p, k as int, "attribute"@));
            return false;
        }
        k = k + 1;
    }
    are_written_out(v, a, e)
}

fn does_split(v: &Vec<CodePiece>, a: usize, e: usize) -> (b: bool)
    requires
        e <= v@.len() <= 65535,
    ensures
        b == splits(views(v@), a as int, e as int),
{
    are_written_out(v, a, e) && (count_commas(v, a, e) == 0 || is_small_last(v, a, e, 1))
}

fn does_name_filter(v: &Vec<CodePiece>, i: usize) -> (b: bool)
    requires
        i < v@.len(),
    ensures
        b == names_filter(views(v@), i as int),
{
    i > 0 && (has_sign(v, i - 1, '|') || (has_word(v, i - 1, "filter") && does_start(v, i - 1)))
}

fn does_filter_fit(v: &Vec<CodePiece>, i: usize, w: &str) -> (b: bool)
    requires
        i < v@.len() <= 65535,
    ensures
        b == filter_fits(views(v@), i as int, w@),
{
    let called: bool = has_sign(v, i + 1, '(');
    let e: usize = find_closing(v, i + 2);
    if same_text(w, "batch") || same_text(w, "slice") {
        !called || (is_small(v, i + 2) && does_argument_end(v, i + 3))
    } else if same_text(w, "chain") {
        false
    } else if same_text(w, "format") {
        if i < 2 || !has_sign(v, i - 1, '|') {
            return false;
        }
        assert(views(v@)[i - 2] == v@[i - 2]@);
        let plain: bool = match &v[i - 2] {
            CodePiece::Quoted(s) => is_plain_format(s.as_str()),
            _ => false,
        };
        plain && !(i >= 3 && has_quoted(v, i - 3))
    } else if same_text(w, "indent") {
        !called || does_indent(v, i + 2, e)
    } else if same_text(w, "map") {
        !called || does_map(v, i + 2)
    } else if same_text(w, "sort") {
        !called || does_sort(v, i + 2, e)
    } else if same_text(w, "split") {
        !called || does_split(v, i + 2, e)
    } else if is_testing_filter(w) {
        !called || has_plain_arguments(v, i + 2)
    } else {
        true
    }
}

fn does_go_on(v: &Vec<CodePiece>, i: usize) -> (b: bool)
    ensures
        b == goes_on(views(v@), i as int),
{
    has_sign(v, i, '|') || has_sign(v, i, '.') || has_sign(v, i, '[') || has_sign(v, i, '(')
        || has_quoted(v, i)
}

fn is_loop_count(w: &str) -> (b: bool)
    ensures
        b == loop_count(w@),
{
    same_text(w, "index") || same_text(w, "index0") || same_text(w, "revindex") || same_text(
        w,
        "revindex0",
    ) || same_text(w, "length") || same_text(w, "depth") || same_text(w, "depth0")
}

fn is_counting_filter(w: &str) -> (b: bool)
    ensures
        b == counting_filter(w@),
{
    same_text(w, "length") || same_text(w, "count") || same_text(w, "int") || same_text(w, "float")
}

fn are_loops_alone(v: &Vec<CodePiece>) -> (b: bool)
    requires
        v@.len() <= 65535,
    ensures
        b == loops_alone(views(v@)),
{
    let ghost p = views(v@);
    let mut j: usize = 0;
    while j < v.len()
        invariant
            p == views(v@),
            p.len() == v@.len(),
            j <= v@.len() <= 65535,
            forall|k: int|
                0 <= k < j && #[trigger] is_word(p, k, "loop"@) ==> is_sign(p, k + 1, '.'),
        decreases v@.len() - j,
    {
        if has_word(v, j, "loop") && !has_sign(v, j + 1, '.') {
            assert(is_word(p, j as int, "loop"@));
            return false;
        }
        j = j + 1;
    }
    true
}

fn is_counted(v: &Vec<CodePiece>, k: usize) -> (b: bool)
    requires
        v@.len() <= 65535,
    ensures
        b == counted(views(v@), k as int),
{
    if k < 2 || k >= v.len() {
        return false;
    }
    assert(views(v@)[k as int] == v@[k as int]@);
    let named: bool = match &v[k] {
        CodePiece::Word(w) => is_loop_count(w.as_str()),
        _ => false,
    };
    named && has_sign(v, k - 1, '.') && has_word(v, k - 2, "loop") && !(k >= 3 && has_sign(
        v,
        k - 3,
        '.',
    )) && are_loops_alone(v)
}

fn is_number_before(v: &Vec<CodePiece>, k: usize) -> (b: bool)
    requires
        v@.len() <= 65535,
    ensures
        b == number_before(views(v@), k as int),
{
    if k >= v.len() {
        return false;
    }
    assert(views(v@)[k as int] == v@[k as int]@);
    match &v[k] {
        CodePiece::Number(_) => !(k >= 1 && has_sign(v, k - 1, '.')) || (k >= 2 && has_number(
            v,
            k - 2,
        )),
        CodePiece::Word(w) => (is_counting_filter(w.as_str()) && k >= 1 && has_sign(v, k - 1, '|'))
            || is_counted(v, k),
        _ => false,
    }
}

fn is_number_after(v: &Vec<CodePiece>, k: usize) -> (b: bool)
    requires
        k <= v@.len() + 1,
        v@.len() <= 65535,
    ensures
        b == number_after(views(v@), k as int),
{
    if k >= v.len() {
        return false;
    }
    assert(views(v@)[k as int] == v@[k as int]@);
    match &v[k] {
        CodePiece::Number(_) => if has_sign(v, k + 1, '.') {
            has_number(v, k + 2) && !does_go_on(v, k + 3)
        } else {
            !does_go_on(v, k + 1)
        },
        CodePiece::Word(_) => is_counted(v, k + 2) && !does_go_on(v, k + 3),
        _ => false,
    }
}

fn does_star_fit(v: &Vec<CodePiece>, i: usize) -> (b: bool)
    requires
        i < v@.len() <= 65535,
    ensures
        b == star_fits(views(v@), i as int),
{
    (i >= 1 && has_sign(v, i - 1, '*')) || has_sign(v, i + 1, '*') || does_unpack(v, i) || (i >= 1
        && has_quoted(v, i - 1)) || (has_quoted(v, i + 1) && !does_go_on(v, i + 2)) || (i >= 1
        && is_number_before(v, i - 1) && is_number_after(v, i + 1))
}

fn does_word_fit(v: &Vec<CodePiece>, i: usize, w: &str) -> (b: bool)
    requires
        i < v@.len() <= 65535,
    ensures
        b == word_fits(views(v@), i as int, w@),
{
    let attribute: bool = i > 0 && has_sign(v, i - 1, '.');
    if is_shunned(w) {
        attribute
    } else if is_shunned_tag(w) {
        !does_start(v, i)
    } else if is_making_tag(w) {
        does_stay_inside(v, i)
    } else if same_text(w, "cycle") {
        !has_sign(v, i + 1, '(') || (!has_sign(v, i + 2, ')') && !has_sign(v, i + 2, '*'))
    } else if same_text(w, "divisibleby") {
        attribute || does_divide(v, i + 1)
    } else if same_text(w, "range") {
        attribute || does_count(v, i + 1)
    } else if same_text(w, "namespace") {
        is_kept_apart(v, i)
    } else {
        true
    }
}

/// Whether a piece may stand where it does.
fn does_fit(v: &Vec<CodePiece>, i: usize) -> (b: bool)
    requires
        i < v@.len() <= 65535,
    ensures
        b == fits(views(v@), i as int),
{
    assert(views(v@)[i as int] == v@[i as int]@);
    match &v[i] {
        CodePiece::Word(w) => does_word_fit(v, i, w.as_str()) && (!does_name_filter(v, i)
            || does_filter_fit(v, i, w.as_str())),
        CodePiece::Number(w) => {
            all_digits(w.as_str()) && !(has_sign(v, i + 1, '.') && has_a_word(v, i + 2))
        },
        CodePiece::Sign(_) => {
            (!has_sign(v, i, '*') || does_star_fit(v, i)) && (!has_sign(v, i, ':')
                || is_behind_key(v, i) || does_close_next(v, i + 1))
        },
        _ => true,
    }
}

/// Whether a template is supported.
pub fn is_supported(template: &str) -> (b: bool)
    ensures
        b == supported(template@),
{
    let t: Vec<char> = characters(template);
    if t.len() >= 65535 {
        return false;
    }
    let v: Vec<CodePiece> = take_apart(&t);
    let ghost p = views(v@);
    proof {
        lemma_few_pieces(t@, 0, Place::Text, 0);
    }
    let mut i: usize = 0;
    while i < v.len()
        invariant
            i <= v@.len() <= 65535,
            p == views(v@),
            p.len() == v@.len(),
            p == pieces(t@, 0, Place::Text, 0),
            t@ == template@,
            forall|k: int| 0 <= k < i ==> #[trigger] fits(p, k),
        decreases v@.len() - i,
    {
        if !does_fit(&v, i) {
            assert(!fits(p, i as int));
            return false;
        }
        i = i + 1;
    }
    true
}

/// There are no more pieces than characters.
proof fn lemma_few_pieces(t: Seq<char>, i: int, place: Place, depth: int)
    ensures
        0 <= i <= t.len() ==> pieces(t, i, place, depth).len() <= t.len() - i,
    decreases t.len() - i,
{
    if 0 <= i < t.len() {
        lemma_comment_end(t, i + 2);
        lemma_quote_end(t, i + 1, t[i]);
        lemma_run_end(t, i);
        lemma_run_end(t, i + 1);
        if place is Text {
            if i + 1 < t.len() {
                lemma_few_pieces(t, i + 2, Place::Expression, depth);
                lemma_few_pieces(t, i + 2, Place::Statement, depth);
            }
            lemma_few_pieces(t, i + 1, Place::Text, depth);
            lemma_raw(t, i);
            if bare_tag(t, i + 2, "raw"@) is Some {
                let a = bare_tag(t, i + 2, "raw"@)->0;
                if raw_end(t, a) is Some {
                    lemma_few_pieces(t, raw_end(t, a)->0, Place::Text, depth);
                }
            }
            if comment_end(t, i + 2) is Some {
                lemma_few_pieces(t, comment_end(t, i + 2)->0 + 2, Place::Text, depth);
            }
        } else if space(t[i]) {
            lemma_few_pieces(t, i + 1, place, depth);
        } else if depth == 0 && tag_end(t, i, place) is Some {
            lemma_few_pieces(t, tag_end(t, i, place)->0, Place::Text, depth);
        } else if t[i] == '\'' || t[i] == '"' {
            if quote_end(t, i + 1, t[i]) is Some {
                lemma_few_pieces(t, quote_end(t, i + 1, t[i])->0 + 1, place, depth);
            }
        } else if word_char(t[i]) {
            lemma_few_pieces(t, run_end(t, i), place, depth);
        } else {
            lemma_few_pieces(t, i + 1, place, depth + opened(t[i]));
        }
    }
}

// ---------------------------------------------------------------------------
// The default template
// ---------------------------------------------------------------------------

/// The template of tokenizers that have none of their own.
pub open spec fn default_template() -> Seq<char> {
    "{% for message in messages %}<|im_start|>{{ message.role }}\n{{ message.content }}<|im_end|>\n{% endfor %}{% if add_generation_prompt %}<|im_start|>assistant\n{% endif %}"@
}

/// Words that need a look at what stands around them.
spec fn special(w: Seq<char>) -> bool {
    shunned(w) || shunned_tag(w) || making_tag(w) || w == "cycle"@ || w == "divisibleby"@ || w == "range"@ || w
        == "namespace"@ || w == "filter"@
}

/// Whether the pieces are the ends of tags, dots, and words that need no look at
/// what stands around them.
spec fn plain(p: Seq<Piece>) -> bool {
    forall|i: int| 0 <= i < p.len() ==> #[trigger] plain_piece(p[i])
}

spec fn plain_piece(piece: Piece) -> bool {
    match piece {
        Piece::Word(w) => !special(w),
        Piece::Sign(c) => c == '.' as u32,
        Piece::Begin | Piece::End => true,
        _ => false,
    }
}

proof fn lemma_plain_pieces_fit(p: Seq<Piece>)
    requires
        plain(p),
    ensures
        forall|i: int| 0 <= i < p.len() ==> #[trigger] fits(p, i),
{
    assert forall|i: int| 0 <= i < p.len() implies #[trigger] fits(p, i) by {
        assert(plain_piece(p[i]));
        if i > 0 {
            assert(plain_piece(p[i - 1]));
        }
    }
}

proof fn lemma_plain_first(piece: Piece, rest: Seq<Piece>)
    requires
        plain_piece(piece),
        plain(rest),
    ensures
        plain(seq![piece] + rest),
{
    let p = seq![piece] + rest;
    assert forall|i: int| 0 <= i < p.len() implies #[trigger] plain_piece(p[i]) by {
        if i > 0 {
            assert(p[i] == rest[i - 1]);
            assert(plain_piece(rest[i - 1]));
        }
    }
}

/// Text without tags has no pieces.
proof fn step_text(t: Seq<char>, i: int, j: int)
    requires
        0 <= i <= j <= t.len(),
        forall|k: int| i <= k < j ==> #[trigger] t[k] != '{',
        plain(pieces(t, j, Place::Text, 0)),
    ensures
        plain(pieces(t, i, Place::Text, 0)),
    decreases j - i,
{
    if i < j {
        step_text(t, i + 1, j);
    }
}

/// A tag is opened.
proof fn step_open(t: Seq<char>, i: int, place: Place)
    requires
        0 <= i,
        i + 1 < t.len(),
        t[i] == '{',
        place is Expression && t[i + 1] == '{' || place is Statement && t[i + 1] == '%' && i + 3
            < t.len() && t[i + 2] == ' ' && !space(t[i + 3]) && t[i + 3] != 'r',
        plain(pieces(t, i + 2, place, 0)),
    ensures
        plain(pieces(t, i, Place::Text, 0)),
{
    if place is Statement {
        reveal_strlit("raw");
        let name = "raw"@;
        assert(name.len() == 3 && name[0] == 'r');
        assert(after_spaces(t, i + 3) == i + 3);
        assert(after_spaces(t, i + 2) == i + 3);
        assert(after_sign(t, i + 2) == i + 2);
        if i + 6 <= t.len() && t.subrange(i + 3, i + 6) == name {
            assert(t.subrange(i + 3, i + 6)[0] == t[i + 3]);
        }
        lemma_plain_first(Piece::Begin, pieces(t, i + 2, place, 0));
    }
}

/// Spaces have no pieces.
proof fn step_space(t: Seq<char>, i: int, place: Place)
    requires
        0 <= i < t.len(),
        !(place is Text),
        t[i] == ' ',
        plain(pieces(t, i + 1, place, 0)),
    ensures
        plain(pieces(t, i, place, 0)),
{
}

/// A tag ends.
proof fn step_end(t: Seq<char>, i: int, place: Place)
    requires
        0 <= i,
        i + 1 < t.len(),
        place is Expression && t[i] == '}' || place is Statement && t[i] == '%',
        t[i + 1] == '}',
        plain(pieces(t, i + 2, Place::Text, 0)),
    ensures
        plain(pieces(t, i, place, 0)),
{
    lemma_plain_first(Piece::End, pieces(t, i + 2, Place::Text, 0));
}

/// A dot is a plain piece.
proof fn step_dot(t: Seq<char>, i: int, place: Place)
    requires
        0 <= i < t.len(),
        !(place is Text),
        t[i] == '.',
        plain(pieces(t, i + 1, place, 0)),
    ensures
        plain(pieces(t, i, place, 0)),
{
    lemma_plain_first(Piece::Sign('.' as u32), pieces(t, i + 1, place, 0));
}

/// A word that is not special is a plain piece.
proof fn step_word(t: Seq<char>, i: int, j: int, place: Place, w: Seq<char>)
    requires
        0 <= i < j < t.len(),
        !(place is Text),
        forall|k: int| i <= k < j ==> word_char(#[trigger] t[k]),
        !word_char(t[j]),
        !digit(t[i]),
        t.subrange(i, j) == w,
        plain_piece(Piece::Word(w)),
        plain(pieces(t, j, place, 0)),
    ensures
        plain(pieces(t, i, place, 0)),
{
    lemma_run_is(t, i, j);
    assert(word_char(t[i]));
    lemma_plain_first(Piece::Word(w), pieces(t, j, place, 0));
}

proof fn lemma_run_is(t: Seq<char>, i: int, j: int)
    requires
        0 <= i <= j < t.len(),
        forall|k: int| i <= k < j ==> word_char(#[trigger] t[k]),
        !word_char(t[j]),
    ensures
        run_end(t, i) == j,
    decreases j - i,
{
    if i < j {
        assert(word_char(t[i]));
        lemma_run_is(t, i + 1, j);
    }
}

/// The words of the default template are not special.
proof fn lemma_default_words()
    ensures
        plain_piece(Piece::Word("for"@)),
        plain_piece(Piece::Word("message"@)),
        plain_piece(Piece::Word("in"@)),
        plain_piece(Piece::Word("messages"@)),
        plain_piece(Piece::Word("role"@)),
        plain_piece(Piece::Word("content"@)),
        plain_piece(Piece::Word("endfor"@)),
        plain_piece(Piece::Word("if"@)),
        plain_piece(Piece::Word("add_generation_prompt"@)),
        plain_piece(Piece::Word("endif"@)),
{
    reveal_strlit("for");
    reveal_strlit("message");
    reveal_strlit("in");
    reveal_strlit("messages");
    reveal_strlit("role");
    reveal_strlit("content");
    reveal_strlit("endfor");
    reveal_strlit("if");
    reveal_strlit("add_generation_prompt");
    reveal_strlit("endif");
    reveal_strlit("cycle");
    reveal_strlit("debug");
    reveal_strlit("divisibleby");
    reveal_strlit("extends");
    reveal_strlit("filter");
    reveal_strlit("from");
    reveal_strlit("import");
    reveal_strlit("range");
    reveal_strlit("recursive");
    reveal_strlit("self");
    reveal_strlit("super");
    reveal_strlit("namespace");
    reveal_strlit("macro");
    reveal_strlit("call");
    reveal_strlit("include");
    assert("for"@.len() == 3);
    assert("message"@.len() == 7);
    assert("in"@.len() == 2);
    assert("messages"@.len() == 8);
    assert("role"@.len() == 4);
    assert("content"@.len() == 7);
    assert("endfor"@.len() == 6);
    assert("if"@.len() == 2);
    assert("add_generation_prompt"@.len() == 21);
    assert("endif"@.len() == 5);
    assert("cycle"@.len() == 5);
    assert("debug"@.len() == 5);
    assert("divisibleby"@.len() == 11);
    assert("extends"@.len() == 7);
    assert("filter"@.len() == 6);
    assert("from"@.len() == 4);
    assert("import"@.len() == 6);
    assert("range"@.len() == 5);
    assert("recursive"@.len() == 9);
    assert("self"@.len() == 4);
    assert("super"@.len() == 5);
    assert("namespace"@.len() == 9);
    assert("macro"@.len() == 5);
    assert("call"@.len() == 4);
    assert("include"@.len() == 7);
    assert("endif"@[0] != "macro"@[0]);
    assert("role"@[0] != "call"@[0]);
    assert("message"@[0] != "include"@[0]);
    assert("content"@[0] != "include"@[0]);
    assert("message"@[0] != "extends"@[0]);
    assert("role"@[0] != "from"@[0]);
    assert("role"@[0] != "self"@[0]);
    assert("content"@[0] != "extends"@[0]);
    assert("endfor"@[0] != "filter"@[0]);
    assert("endfor"@[0] != "import"@[0]);
    assert("endif"@[0] != "cycle"@[0]);
    assert("endif"@[0] != "debug"@[0]);
    assert("endif"@[0] != "range"@[0]);
    assert("endif"@[0] != "super"@[0]);
    assert(!special("for"@));
    assert(!special("message"@));
    assert(!special("in"@));
    assert(!special("messages"@));
    assert(!special("role"@));
    assert(!special("content"@));
    assert(!special("endfor"@));
    assert(!special("if"@));
    assert(!special("add_generation_prompt"@));
    assert(!special("endif"@));
}

/// The default template is supported.
#[verifier::rlimit(60)]
pub proof fn default_template_is_supported()
    ensures
        supported(default_template()),
{
    let t = default_template();
    reveal_strlit(
        "{% for message in messages %}<|im_start|>{{ message.role }}\n{{ message.content }}<|im_end|>\n{% endfor %}{% if add_generation_prompt %}<|im_start|>assistant\n{% endif %}",
    );
    lemma_default_words();
    reveal_strlit("for");
    reveal_strlit("message");
    reveal_strlit("in");
    reveal_strlit("messages");
    reveal_strlit("role");
    reveal_strlit("content");
    reveal_strlit("endfor");
    reveal_strlit("if");
    reveal_strlit("add_generation_prompt");
    reveal_strlit("endif");
    assert(t.len() == 167);
    assert(plain(pieces(t, 167, Place::Text, 0)));
    step_end(t, 165, Place::Statement);
    step_space(t, 164, Place::Statement);
    assert(t.subrange(159, 164) =~= "endif"@);
    step_word(t, 159, 164, Place::Statement, "endif"@);
    step_space(t, 158, Place::Statement);
    step_open(t, 156, Place::Statement);
    step_text(t, 134, 156);
    step_end(t, 132, Place::Statement);
    step_space(t, 131, Place::Statement);
    assert(t.subrange(110, 131) =~= "add_generation_prompt"@);
    step_word(t, 110, 131, Place::Statement, "add_generation_prompt"@);
    step_space(t, 109, Place::Statement);
    assert(t.subrange(107, 109) =~= "if"@);
    step_word(t, 107, 109, Place::Statement, "if"@);
    step_space(t, 106, Place::Statement);
    step_open(t, 104, Place::Statement);
    step_end(t, 102, Place::Statement);
    step_space(t, 101, Place::Statement);
    assert(t.subrange(95, 101) =~= "endfor"@);
    step_word(t, 95, 101, Place::Statement, "endfor"@);
    step_space(t, 94, Place::Statement);
    step_open(t, 92, Place::Statement);
    step_text(t, 81, 92);
    step_end(t, 79, Place::Expression);
    step_space(t, 78, Place::Expression);
    assert(t.subrange(71, 78) =~= "content"@);
    step_word(t, 71, 78, Place::Expression, "content"@);
    step_dot(t, 70, Place::Expression);
    assert(t.subrange(63, 70) =~= "message"@);
    step_word(t, 63, 70, Place::Expression, "message"@);
    step_space(t, 62, Place::Expression);
    step_open(t, 60, Place::Expression);
    step_text(t, 59, 60);
    step_end(t, 57, Place::Expression);
    step_space(t, 56, Place::Expression);
    assert(t.subrange(52, 56) =~= "role"@);
    step_word(t, 52, 56, Place::Expression, "role"@);
    step_dot(t, 51, Place::Expression);
    assert(t.subrange(44, 51) =~= "message"@);
    step_word(t, 44, 51, Place::Expression, "message"@);
    step_space(t, 43, Place::Expression);
    step_open(t, 41, Place::Expression);
    step_text(t, 29, 41);
    step_end(t, 27, Place::Statement);
    step_space(t, 26, Place::Statement);
    assert(t.subrange(18, 26) =~= "messages"@);
    step_word(t, 18, 26, Place::Statement, "messages"@);
    step_space(t, 17, Place::Statement);
    assert(t.subrange(15, 17) =~= "in"@);
    step_word(t, 15, 17, Place::Statement, "in"@);
    step_space(t, 14, Place::Statement);
    assert(t.subrange(7, 14) =~= "message"@);
    step_word(t, 7, 14, Place::Statement, "message"@);
    step_space(t, 6, Place::Statement);
    assert(t.subrange(3, 6) =~= "for"@);
    step_word(t, 3, 6, Place::Statement, "for"@);
    step_space(t, 2, Place::Statement);
    step_open(t, 0, Place::Statement);
    lemma_plain_pieces_fit(pieces(t, 0, Place::Text, 0));
}


proof fn lemma_no_tags(t: Seq<char>, i: int)
    requires
        0 <= i <= t.len(),
        forall|k: int|
            0 <= k < t.len() - 1 && #[trigger] t[k] == '{' ==> !(t[k + 1] == '{' || t[k + 1] == '%'
                || t[k + 1] == '#'),
    ensures
        pieces(t, i, Place::Text, 0) == Seq::<Piece>::empty(),
    decreases t.len() - i,
{
    if i < t.len() {
        lemma_no_tags(t, i + 1);
    }
}

/// A text in which no tag opens is supported, whatever else stands in it, unless it is too
/// long to count its columns.
pub proof fn texts_without_tags_are_supported(t: Seq<char>)
    requires
        forall|k: int|
            0 <= k < t.len() - 1 && #[trigger] t[k] == '{' ==> !(t[k + 1] == '{' || t[k + 1] == '%'
                || t[k + 1] == '#'),
    ensures
        supported(t) <==> t.len() < 65535,
{
    lemma_no_tags(t, 0);
}
} // verus!
