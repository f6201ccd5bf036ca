//! Text building blocks: decimal numerals and small string helpers.

use vstd::prelude::*;
use vstd::string::*;

verus! {

/// `String::push` appends one character.
pub assume_specification[ std::string::String::push ](s: &mut std::string::String, c: char)
    ensures
        final(s)@ == old(s)@.push(c),
;

/// The character of a decimal digit.
pub open spec fn digit(d: nat) -> char {
    (48 + d) as char
}

/// The decimal numeral of `n`, without leading zeros.
pub open spec fn decimal(n: nat) -> Seq<char>
    decreases n,
{
    if n < 10 {
        seq![digit(n)]
    } else {
        decimal(n / 10).push(digit(n % 10))
    }
}

/// Appends the decimal numeral of `n`.
pub fn push_decimal(s: &mut String, n: u64)
    ensures
        final(s)@ == old(s)@ + decimal(n as nat),
    decreases n,
{
    let ghost before = s@;
    if n >= 10 {
        push_decimal(s, n / 10);
    }
    let d: u8 = (n % 10) as u8;
    s.push((48 + d) as char);
    assert(s@ =~= before + decimal(n as nat));
}

/// Appends the decimal numeral of `n`.
pub fn push_decimal_u128(s: &mut String, n: u128)
    ensures
        final(s)@ == old(s)@ + decimal(n as nat),
    decreases n,
{
    let ghost before = s@;
    if n >= 10 {
        push_decimal_u128(s, n / 10);
    }
    let d: u8 = (n % 10) as u8;
    s.push((48 + d) as char);
    assert(s@ =~= before + decimal(n as nat));
}

/// The text `head`, the numeral of `n`, and `tail`.
pub fn text_with_number(head: &str, n: u64, tail: &str) -> (s: String)
    ensures
        s@ == head@ + decimal(n as nat) + tail@,
{
    let mut s = String::from_str(head);
    push_decimal(&mut s, n);
    s.append(tail);
    s
}

/// The text `head`, the numeral of `a`, `middle`, the numeral of `b`, and `tail`.
pub fn text_with_numbers(head: &str, a: u64, middle: &str, b: u64, tail: &str) -> (s: String)
    ensures
        s@ == head@ + decimal(a as nat) + middle@ + decimal(b as nat) + tail@,
{
    let mut s = text_with_number(head, a, middle);
    push_decimal(&mut s, b);
    s.append(tail);
    s
}

/// The texts `head` and `tail` after each other.
pub fn joined(head: &str, tail: &str) -> (s: String)
    ensures
        s@ == head@ + tail@,
{
    let mut s = String::from_str(head);
    s.append(tail);
    s
}

/// The character of a hexadecimal digit, in lower case.
pub open spec fn hex_digit(d: nat) -> char {
    if d < 10 {
        (48 + d) as char
    } else {
        (87 + d) as char
    }
}

/// The lowest `width` hexadecimal digits of `n`.
pub open spec fn hex(n: nat, width: nat) -> Seq<char>
    decreases width,
{
    if width == 0 {
        Seq::empty()
    } else {
        hex(n / 16, (width - 1) as nat).push(hex_digit(n % 16))
    }
}

/// Appends the lowest `width` hexadecimal digits of `n`.
pub fn push_hex(s: &mut String, n: u64, width: usize)
    ensures
        final(s)@ == old(s)@ + hex(n as nat, width as nat),
    decreases width,
{
    let ghost before = s@;
    if width > 0 {
        push_hex(s, n / 16, width - 1);
        let d: u8 = (n % 16) as u8;
        if d < 10 {
            s.push((48 + d) as char);
        } else {
            s.push((87 + d) as char);
        }
    }
    assert(s@ =~= before + hex(n as nat, width as nat));
}

/// The first `n` numbers of a list, with commas between them.
pub open spec fn comma_separated(v: Seq<u64>, n: nat) -> Seq<char>
    decreases n,
{
    if n == 0 {
        Seq::empty()
    } else if n == 1 {
        decimal(v[0] as nat)
    } else {
        comma_separated(v, (n - 1) as nat) + ", "@ + decimal(v[n - 1] as nat)
    }
}

/// A list of numbers in square brackets.
pub open spec fn list_text(v: Seq<u64>) -> Seq<char> {
    "["@ + comma_separated(v, v.len()) + "]"@
}

/// Writes a list of numbers in square brackets.
pub fn number_list(v: &[u64]) -> (s: String)
    ensures
        s@ == list_text(v@),
{
    let mut s = String::from_str("[");
    let mut i: usize = 0;
    assert(s@ =~= "["@ + comma_separated(v@, 0));
    while i < v.len()
        invariant
            i <= v@.len(),
            s@ == "["@ + comma_separated(v@, i as nat),
        decreases v@.len() - i,
    {
        if i > 0 {
            s.append(", ");
        }
        push_decimal(&mut s, v[i]);
        i = i + 1;
        assert(s@ =~= "["@ + comma_separated(v@, i as nat));
    }
    s.append("]");
    s
}

/// Whether two texts are the same.
pub fn same_text(a: &str, b: &str) -> (same: bool)
    ensures
        same == (a@ == b@),
{
    String::from_str(a) == String::from_str(b)
}

/// The characters of a text.
pub fn characters(s: &str) -> (v: Vec<char>)
    ensures
        v@ == s@,
{
    let mut v: Vec<char> = Vec::new();
    for c in it: s.chars()
        invariant
            v@ == it.seq().take(it.index()),
    {
        v.push(c);
        assert(v@ =~= it.seq().take(it.index() + 1));
    }
    assert(v@ =~= s@);
    v
}

/// Whether a text holds another one, at some place.
pub open spec fn holds(s: Seq<char>, part: Seq<char>) -> bool {
    exists|i: int| #[trigger] stands_at(s, part, i)
}

/// Whether a text holds another one at a place.
pub open spec fn stands_at(s: Seq<char>, part: Seq<char>, i: int) -> bool {
    0 <= i && i + part.len() <= s.len() && s.subrange(i, i + part.len()) == part
}

/// Whether `part` stands in `s` at a place.
fn matches_at(s: &Vec<char>, part: &Vec<char>, at: usize) -> (b: bool)
    requires
        at + part@.len() <= s@.len(),
    ensures
        b == stands_at(s@, part@, at as int),
{
    let total: usize = s.len();
    let mut k: usize = 0;
    while k < part.len()
        invariant
            k <= part@.len(),
            at + part@.len() <= total == s@.len(),
            forall|j: int| 0 <= j < k ==> #[trigger] part@[j] == s@[at + j],
        decreases part@.len() - k,
    {
        if s[at + k] != part[k] {
            assert(s@.subrange(at as int, at + part@.len())[k as int] != part@[k as int]);
            return false;
        }
        k = k + 1;
    }
    assert(s@.subrange(at as int, at + part@.len()) =~= part@);
    true
}

/// Whether a text holds another one, at some place.
pub fn text_contains(s: &str, part: &str) -> (b: bool)
    ensures
        b == holds(s@, part@),
{
    let all: Vec<char> = characters(s);
    let piece: Vec<char> = characters(part);
    if piece.len() > all.len() {
        return false;
    }
    let last: usize = all.len() - piece.len();
    let mut at: usize = 0;
    while at < last
        invariant
            at <= last,
            last + piece@.len() == all@.len(),
            all@ == s@,
            piece@ == part@,
            forall|i: int| 0 <= i < at ==> !#[trigger] stands_at(s@, part@, i),
        decreases last - at,
    {
        if matches_at(&all, &piece, at) {
            return true;
        }
        at = at + 1;
    }
    let found: bool = matches_at(&all, &piece, last);
    proof {
        if !found {
            assert forall|i: int| !#[trigger] stands_at(s@, part@, i) by {
                if 0 <= i && i + part@.len() <= s@.len() {
                    assert(i <= last);
                }
            }
        }
    }
    found
}

/// The characters that Unicode counts as white space.
pub open spec fn white(c: char) -> bool {
    let u = c as u32;
    ||| 9 <= u <= 13
    ||| u == 0x20
    ||| u == 0x85
    ||| u == 0xA0
    ||| u == 0x1680
    ||| 0x2000 <= u <= 0x200A
    ||| u == 0x2028
    ||| u == 0x2029
    ||| u == 0x202F
    ||| u == 0x205F
    ||| u == 0x3000
}

/// Whether a text holds nothing but white space.
pub open spec fn blank(s: Seq<char>) -> bool {
    forall|i: int| 0 <= i < s.len() ==> white(#[trigger] s[i])
}

pub fn is_white(c: char) -> (b: bool)
    ensures
        b == white(c),
{
    let u: u32 = c as u32;
    (9 <= u && u <= 13) || u == 0x20 || u == 0x85 || u == 0xA0 || u == 0x1680 || (0x2000 <= u && u
        <= 0x200A) || u == 0x2028 || u == 0x2029 || u == 0x202F || u == 0x205F || u == 0x3000
}

/// Whether a text holds nothing but white space.
pub fn is_blank(s: &str) -> (b: bool)
    ensures
        b == blank(s@),
{
    let all: Vec<char> = characters(s);
    let mut i: usize = 0;
    while i < all.len()
        invariant
            i <= all@.len(),
            all@ == s@,
            forall|k: int| 0 <= k < i ==> white(#[trigger] s@[k]),
        decreases all@.len() - i,
    {
        if !is_white(all[i]) {
            return false;
        }
        i = i + 1;
    }
    true
}

/// What some strings hold.
pub open spec fn texts(v: Seq<String>) -> Seq<Seq<char>> {
    v.map_values(|s: String| s@)
}

/// What an optional string holds.
pub open spec fn optional(s: Option<String>) -> Option<Seq<char>> {
    match s {
        Some(t) => Some(t@),
        None => None,
    }
}

/// The first `n` of some texts, with a separator between them.
pub open spec fn separated(parts: Seq<Seq<char>>, sep: Seq<char>, n: nat) -> Seq<char>
    decreases n,
{
    if n == 0 {
        Seq::empty()
    } else if n == 1 {
        parts[0]
    } else {
        separated(parts, sep, (n - 1) as nat) + sep + parts[n - 1]
    }
}

/// Writes some texts after each other, with a separator between them.
pub fn join(parts: &Vec<String>, sep: &str) -> (s: String)
    ensures
        s@ == separated(texts(parts@), sep@, parts@.len()),
{
    let mut s: String = String::new();
    let mut i: usize = 0;
    assert(s@ =~= separated(texts(parts@), sep@, 0));
    while i < parts.len()
        invariant
            i <= parts@.len(),
            s@ == separated(texts(parts@), sep@, i as nat),
        decreases parts@.len() - i,
    {
        if i > 0 {
            s.append(sep);
        }
        s.append(parts[i].as_str());
        i = i + 1;
        assert(texts(parts@)[i - 1] == parts@[i - 1]@);
        assert(s@ =~= separated(texts(parts@), sep@, i as nat));
    }
    s
}

/// The decimal numeral of `n`.
pub fn number_text(n: usize) -> (s: String)
    ensures
        s@ == decimal(n as nat),
{
    let mut s: String = String::new();
    push_decimal(&mut s, n as u64);
    assert(s@ =~= decimal(n as nat));
    s
}

/// The text of the characters from `from` up to `to`.
pub fn text_between(chars: &Vec<char>, from: usize, to: usize) -> (s: String)
    requires
        from <= to <= chars@.len(),
    ensures
        s@ == chars@.subrange(from as int, to as int),
{
    let mut s: String = String::new();
    let mut i: usize = from;
    while i < to
        invariant
            from <= i <= to <= chars@.len(),
            s@ == chars@.subrange(from as int, i as int),
        decreases to - i,
    {
        s.push(chars[i]);
        i = i + 1;
        assert(s@ =~= chars@.subrange(from as int, i as int));
    }
    s
}

// ---------------------------------------------------------------------------
// Lines, pieces and white space around them
// ---------------------------------------------------------------------------

/// A line without a carriage return at its end.
pub open spec fn without_return(line: Seq<char>) -> Seq<char> {
    if line.len() > 0 && line.last() == '\r' {
        line.drop_last()
    } else {
        line
    }
}

/// The lines of a text from `at` on, where the current line began at `start`.
/// A line ends at a line feed; a carriage return before it belongs to the line
/// ending. The last line ending may be missing.
pub open spec fn lines_from(s: Seq<char>, start: int, at: int) -> Seq<Seq<char>>
    decreases s.len() - at,
{
    if at >= s.len() || at < 0 {
        if start < s.len() {
            seq![s.subrange(start, s.len() as int)]
        } else {
            seq![]
        }
    } else if s[at] == '\n' {
        seq![without_return(s.subrange(start, at))] + lines_from(s, at + 1, at + 1)
    } else {
        lines_from(s, start, at + 1)
    }
}

/// The lines of a text.
pub fn lines(s: &str) -> (v: Vec<String>)
    ensures
        texts(v@) == lines_from(s@, 0, 0),
{
    let all: Vec<char> = characters(s);
    let mut v: Vec<String> = Vec::new();
    let mut start: usize = 0;
    let mut at: usize = 0;
    assert(texts(v@) + lines_from(s@, 0, 0) =~= lines_from(s@, 0, 0));
    while at < all.len()
        invariant
            start <= at <= all@.len(),
            all@ == s@,
            texts(v@) + lines_from(s@, start as int, at as int) == lines_from(s@, 0, 0),
        decreases all@.len() - at,
    {
        let ghost before = texts(v@);
        let ghost rest = lines_from(s@, start as int, at as int);
        if all[at] == '\n' {
            let mut end: usize = at;
            if end > start && all[end - 1] == '\r' {
                end = end - 1;
            }
            let line: String = text_between(&all, start, end);
            proof {
                let whole = s@.subrange(start as int, at as int);
                assert(line@ =~= without_return(whole));
            }
            v.push(line);
            start = at + 1;
            proof {
                let next = lines_from(s@, start as int, start as int);
                assert(texts(v@) =~= before + seq![line@]);
                assert(texts(v@) + next =~= before + rest);
            }
        }
        at = at + 1;
    }
    if start < all.len() {
        let ghost before = texts(v@);
        let line: String = text_between(&all, start, all.len());
        v.push(line);
        assert(texts(v@) =~= before + seq![line@]);
    }
    assert(texts(v@) =~= lines_from(s@, 0, 0));
    v
}

/// The pieces of a text from `at` on between separators, the first of which
/// began with `current`.
pub open spec fn pieces_from(s: Seq<char>, sep: char, at: int, current: Seq<char>) -> Seq<Seq<char>>
    decreases s.len() - at,
{
    if at >= s.len() || at < 0 {
        seq![current]
    } else if s[at] == sep {
        seq![current] + pieces_from(s, sep, at + 1, Seq::empty())
    } else {
        pieces_from(s, sep, at + 1, current.push(s[at]))
    }
}

/// The pieces of a text between separators.
pub fn split(s: &str, sep: char) -> (v: Vec<String>)
    ensures
        texts(v@) == pieces_from(s@, sep, 0, Seq::empty()),
{
    let all: Vec<char> = characters(s);
    let mut v: Vec<String> = Vec::new();
    let mut current: String = String::new();
    let mut at: usize = 0;
    assert(texts(v@) + pieces_from(s@, sep, 0, Seq::empty()) =~= pieces_from(
        s@,
        sep,
        0,
        Seq::empty(),
    ));
    assert(current@ =~= Seq::empty());
    while at < all.len()
        invariant
            at <= all@.len(),
            all@ == s@,
            texts(v@) + pieces_from(s@, sep, at as int, current@) == pieces_from(
                s@,
                sep,
                0,
                Seq::empty(),
            ),
        decreases all@.len() - at,
    {
        let ghost before = texts(v@);
        let ghost piece = current@;
        if all[at] == sep {
            v.push(current);
            current = String::new();
            proof {
                assert(current@ =~= Seq::empty());
                assert(texts(v@) =~= before + seq![piece]);
                assert(texts(v@) + pieces_from(s@, sep, at + 1, Seq::empty()) =~= before
                    + pieces_from(s@, sep, at as int, piece));
            }
        } else {
            current.push(all[at]);
        }
        at = at + 1;
    }
    let ghost before = texts(v@);
    let ghost piece = current@;
    v.push(current);
    assert(texts(v@) =~= before + seq![piece]);
    v
}

/// A text without white space at its start.
pub open spec fn trimmed_start(s: Seq<char>) -> Seq<char>
    decreases s.len(),
{
    if s.len() > 0 && white(s[0]) {
        trimmed_start(s.drop_first())
    } else {
        s
    }
}

/// A text without white space at its end.
pub open spec fn trimmed_end(s: Seq<char>) -> Seq<char>
    decreases s.len(),
{
    if s.len() > 0 && white(s.last()) {
        trimmed_end(s.drop_last())
    } else {
        s
    }
}

/// A text without white space around it.
pub fn trim(s: &str) -> (t: String)
    ensures
        t@ == trimmed_end(trimmed_start(s@)),
{
    let all: Vec<char> = characters(s);
    let mut from: usize = 0;
    assert(all@.subrange(0, all@.len() as int) =~= all@);
    while from < all.len() && is_white(all[from])
        invariant
            from <= all@.len(),
            trimmed_start(all@.subrange(from as int, all@.len() as int)) == trimmed_start(all@),
        decreases all@.len() - from,
    {
        let ghost rest = all@.subrange(from as int, all@.len() as int);
        from = from + 1;
        assert(rest.drop_first() =~= all@.subrange(from as int, all@.len() as int));
    }
    let mut to: usize = all.len();
    let ghost kept = all@.subrange(from as int, all@.len() as int);
    while to > from && is_white(all[to - 1])
        invariant
            from <= to <= all@.len(),
            trimmed_end(all@.subrange(from as int, to as int)) == trimmed_end(kept),
        decreases to,
    {
        let ghost rest = all@.subrange(from as int, to as int);
        to = to - 1;
        assert(rest.drop_last() =~= all@.subrange(from as int, to as int));
    }
    text_between(&all, from, to)
}

// ---------------------------------------------------------------------------
// Reading numbers
// ---------------------------------------------------------------------------

/// Whether a text consists of decimal digits.
pub open spec fn digits_only(s: Seq<char>) -> bool {
    forall|i: int| 0 <= i < s.len() ==> '0' <= #[trigger] s[i] <= '9'
}

/// The number that some decimal digits stand for.
pub open spec fn digits_value(s: Seq<char>) -> nat
    decreases s.len(),
{
    if s.len() == 0 {
        0
    } else {
        digits_value(s.drop_last()) * 10 + (s.last() as nat - '0' as nat) as nat
    }
}

/// The number that a text stands for: an optional plus sign and at least one
/// decimal digit.
pub open spec fn numeral(s: Seq<char>) -> Option<nat> {
    let digits = if s.len() > 1 && s[0] == '+' {
        s.drop_first()
    } else {
        s
    };
    if digits.len() > 0 && digits_only(digits) {
        Some(digits_value(digits))
    } else {
        None
    }
}

/// Whether a text stands for a number up to `max`.
pub open spec fn reads_as(s: Seq<char>, max: nat) -> bool {
    numeral(s) is Some && numeral(s)->0 <= max
}

/// What `str::parse` says of a text that is no `usize`, on a machine whose
/// largest `usize` is `max`.
pub uninterp spec fn usize_complaint(s: Seq<char>, max: nat) -> Seq<char>;

/// What `str::parse` says of a text that is no `u128`.
pub uninterp spec fn u128_complaint(s: Seq<char>) -> Seq<char>;

/// Reads a number with `str::parse::<usize>`: it accepts an optional plus sign
/// followed by decimal digits, as long as the number fits. The text of its
/// error is not pinned down here beyond depending on the input alone.
#[verifier::external_body]
pub(crate) fn read_usize(s: &str) -> (r: Result<usize, String>)
    ensures
        match r {
            Ok(n) => reads_as(s@, usize::MAX as nat) && n == numeral(s@)->0,
            Err(e) => !reads_as(s@, usize::MAX as nat) && e@ == usize_complaint(
                s@,
                usize::MAX as nat,
            ),
        },
{
    s.parse::<usize>().map_err(|e| e.to_string())
}

/// Reads a number with `str::parse::<u128>`: it accepts an optional plus sign
/// followed by decimal digits, as long as the number fits. The text of its
/// error is not pinned down here beyond depending on the input alone.
#[verifier::external_body]
pub(crate) fn read_u128(s: &str) -> (r: Result<u128, String>)
    ensures
        match r {
            Ok(n) => reads_as(s@, u128::MAX as nat) && n == numeral(s@)->0,
            Err(e) => !reads_as(s@, u128::MAX as nat) && e@ == u128_complaint(s@),
        },
{
    s.parse::<u128>().map_err(|e| e.to_string())
}

// ---------------------------------------------------------------------------
// Laws
// ---------------------------------------------------------------------------

/// A number that was written is read back: its numeral consists of digits, has no
/// zero in front unless it is zero, and stands for the number.
pub proof fn written_numbers_are_read_back(n: nat)
    ensures
        decimal(n).len() > 0,
        digits_only(decimal(n)),
        n > 0 ==> decimal(n)[0] != '0',
        n < 10 ==> decimal(n).len() == 1 && decimal(n)[0] as nat == '0' as nat + n,
        digits_value(decimal(n)) == n,
        numeral(decimal(n)) == Some(n),
    decreases n,
{
    let d = decimal(n);
    if n < 10 {
        assert(d.drop_last().len() == 0);
        assert(digits_value(d.drop_last()) == 0);
    } else {
        written_numbers_are_read_back(n / 10);
        assert(d.drop_last() =~= decimal(n / 10));
        assert(d[0] == decimal(n / 10)[0]);
        assert(d.last() as nat == 48 + n % 10);
        assert forall|i: int| 0 <= i < d.len() implies '0' <= #[trigger] d[i] <= '9' by {
            if i < d.len() - 1 {
                assert(d[i] == decimal(n / 10)[i]);
            }
        }
    }
}

/// The number that a hexadecimal digit stands for.
pub open spec fn hex_digit_value(c: char) -> int {
    if c <= '9' {
        c as int - '0' as int
    } else {
        c as int - 'a' as int + 10
    }
}

/// The number that some hexadecimal digits stand for.
pub open spec fn hex_value(s: Seq<char>) -> int
    decreases s.len(),
{
    if s.len() == 0 {
        0
    } else {
        16 * hex_value(s.drop_last()) + hex_digit_value(s.last())
    }
}

/// Hexadecimal digits stand for the number that they were written for, as far as it
/// has no more than `width` of them.
pub proof fn hex_digits_stand_for_the_number(n: nat, width: nat)
    requires
        n < vstd::arithmetic::power::pow(16, width),
    ensures
        hex(n, width).len() == width,
        hex_value(hex(n, width)) == n,
    decreases width,
{
    if width == 0 {
        vstd::arithmetic::power::lemma_pow0(16);
    } else {
        vstd::arithmetic::power::lemma_pow1(16);
        vstd::arithmetic::power::lemma_pow_adds(16, 1, (width - 1) as nat);
        assert(n / 16 < vstd::arithmetic::power::pow(16, (width - 1) as nat));
        hex_digits_stand_for_the_number(n / 16, (width - 1) as nat);
        assert(hex(n, width).drop_last() =~= hex(n / 16, (width - 1) as nat));
    }
}

proof fn lemma_separated_front(first: Seq<char>, rest: Seq<Seq<char>>, sep: Seq<char>, n: nat)
    requires
        0 < n <= rest.len(),
    ensures
        separated(seq![first] + rest, sep, n + 1) == first + sep + separated(rest, sep, n),
    decreases n,
{
    let all = seq![first] + rest;
    assert(all[0] == first);
    assert(all[n as int] == rest[n - 1]);
    if n == 1 {
        assert(separated(all, sep, 1) == first);
    } else {
        lemma_separated_front(first, rest, sep, (n - 1) as nat);
    }
    assert(separated(all, sep, n + 1) =~= first + sep + separated(rest, sep, n));
}

proof fn lemma_pieces(s: Seq<char>, sep: char, at: int, current: Seq<char>)
    requires
        0 <= at <= s.len(),
        !current.contains(sep),
    ensures
        ({
            let v = pieces_from(s, sep, at, current);
            &&& v.len() > 0
            &&& separated(v, seq![sep], v.len()) == current + s.skip(at)
            &&& forall|i: int| 0 <= i < v.len() ==> !(#[trigger] v[i]).contains(sep)
        }),
    decreases s.len() - at,
{
    let v = pieces_from(s, sep, at, current);
    if at == s.len() {
        assert(current + s.skip(at) =~= current);
    } else if s[at] == sep {
        let none = Seq::<char>::empty();
        let rest = pieces_from(s, sep, at + 1, none);
        lemma_pieces(s, sep, at + 1, none);
        lemma_separated_front(current, rest, seq![sep], rest.len());
        assert(current + seq![sep] + (none + s.skip(at + 1)) =~= current + s.skip(at));
        assert forall|i: int| 0 <= i < v.len() implies !(#[trigger] v[i]).contains(sep) by {
            if i > 0 {
                assert(v[i] == rest[i - 1]);
            }
        }
    } else {
        let more = current.push(s[at]);
        assert forall|i: int| 0 <= i < more.len() implies more[i] != sep by {
            if i < current.len() {
                assert(current.contains(current[i]));
            }
        }
        lemma_pieces(s, sep, at + 1, more);
        assert(more + s.skip(at + 1) =~= current + s.skip(at));
    }
}

/// Pieces with the separator between them give the text back, and no piece holds the
/// separator.
pub proof fn pieces_make_the_text(s: Seq<char>, sep: char)
    ensures
        ({
            let v = pieces_from(s, sep, 0, Seq::empty());
            &&& v.len() > 0
            &&& separated(v, seq![sep], v.len()) == s
            &&& forall|i: int| 0 <= i < v.len() ==> !(#[trigger] v[i]).contains(sep)
        }),
{
    lemma_pieces(s, sep, 0, Seq::empty());
    assert(Seq::<char>::empty() + s.skip(0) =~= s);
}

proof fn lemma_lines(s: Seq<char>, start: int, at: int)
    requires
        0 <= start <= at <= s.len(),
        !s.contains('\r'),
        forall|i: int| start <= i < at ==> s[i] != '\n',
    ensures
        ({
            let v = lines_from(s, start, at);
            let glued = separated(v, seq!['\n'], v.len());
            &&& glued == s.skip(start) || glued.push('\n') == s.skip(start)
            &&& v.len() == 0 <==> start == s.len()
            &&& forall|i: int| 0 <= i < v.len() ==> !(#[trigger] v[i]).contains('\n')
        }),
    decreases s.len() - at,
{
    let v = lines_from(s, start, at);
    let sep = seq!['\n'];
    if at == s.len() {
        if start < s.len() {
            assert(s.subrange(start, s.len() as int) =~= s.skip(start));
            assert forall|i: int| 0 <= i < v.len() implies !(#[trigger] v[i]).contains('\n') by {
                let line = s.skip(start);
                assert forall|k: int| 0 <= k < line.len() implies line[k] != '\n' by {
                    assert(line[k] == s[start + k]);
                }
            }
        } else {
            assert(s.skip(start) =~= Seq::<char>::empty());
        }
    } else if s[at] == '\n' {
        let line = s.subrange(start, at);
        if line.len() > 0 {
            assert(line.last() == s[at - 1]);
            assert(s.contains(s[at - 1]));
        }
        assert(without_return(line) == line);
        let rest = lines_from(s, at + 1, at + 1);
        lemma_lines(s, at + 1, at + 1);
        assert forall|i: int| 0 <= i < v.len() implies !(#[trigger] v[i]).contains('\n') by {
            if i == 0 {
                assert forall|k: int| 0 <= k < line.len() implies line[k] != '\n' by {
                    assert(line[k] == s[start + k]);
                }
            } else {
                assert(v[i] == rest[i - 1]);
            }
        }
        assert(line + sep + s.skip(at + 1) =~= s.skip(start));
        if rest.len() > 0 {
            lemma_separated_front(line, rest, sep, rest.len());
            let glued = separated(rest, sep, rest.len());
            if glued.push('\n') == s.skip(at + 1) {
                assert((line + sep + glued).push('\n') =~= line + sep + glued.push('\n'));
            }
        } else {
            assert(v =~= seq![line]);
            assert(s.skip(at + 1) =~= Seq::<char>::empty());
            assert(line.push('\n') =~= s.skip(start));
        }
    } else {
        lemma_lines(s, start, at + 1);
    }
}

/// Lines with line feeds between them give a text without carriage returns back, but
/// for a line feed at its end, and no line holds a line feed.
pub proof fn lines_make_the_text(s: Seq<char>)
    requires
        !s.contains('\r'),
    ensures
        ({
            let v = lines_from(s, 0, 0);
            let glued = separated(v, seq!['\n'], v.len());
            &&& glued == s || glued.push('\n') == s
            &&& v.len() == 0 <==> s.len() == 0
            &&& forall|i: int| 0 <= i < v.len() ==> !(#[trigger] v[i]).contains('\n')
        }),
{
    lemma_lines(s, 0, 0);
    assert(s.skip(0) =~= s);
}

proof fn lemma_trimmed_start(s: Seq<char>) -> (k: int)
    ensures
        0 <= k <= s.len(),
        blank(s.take(k)),
        trimmed_start(s) == s.skip(k),
        k < s.len() ==> !white(s[k]),
    decreases s.len(),
{
    if s.len() > 0 && white(s[0]) {
        let j = lemma_trimmed_start(s.drop_first());
        assert(s.drop_first().skip(j) =~= s.skip(j + 1));
        assert forall|i: int| 0 <= i < j + 1 implies white(#[trigger] s.take(j + 1)[i]) by {
            if i > 0 {
                assert(s.drop_first().take(j)[i - 1] == s[i]);
            }
        }
        j + 1
    } else {
        assert(s.skip(0) =~= s);
        0
    }
}

proof fn lemma_trimmed_end(s: Seq<char>) -> (k: int)
    ensures
        0 <= k <= s.len(),
        blank(s.skip(k)),
        trimmed_end(s) == s.take(k),
        k > 0 ==> !white(s[k - 1]),
    decreases s.len(),
{
    if s.len() > 0 && white(s.last()) {
        let k = lemma_trimmed_end(s.drop_last());
        assert(s.drop_last().take(k) =~= s.take(k));
        assert forall|i: int| 0 <= i < s.skip(k).len() implies white(#[trigger] s.skip(k)[i]) by {
            if i + k < s.len() - 1 {
                assert(s.drop_last().skip(k)[i] == s[i + k]);
            }
        }
        k
    } else {
        assert(s.take(s.len() as int) =~= s);
        s.len() as int
    }
}

/// Trimming takes white space from both ends and nothing else: what is left has none
/// at either end.
pub proof fn trimming_takes_the_white_space_around(s: Seq<char>)
    ensures
        ({
            let t = trimmed_end(trimmed_start(s));
            &&& exists|from: int, to: int|
                0 <= from <= to <= s.len() && t == #[trigger] s.subrange(from, to) && blank(
                    s.subrange(0, from),
                ) && blank(s.subrange(to, s.len() as int))
            &&& t.len() > 0 ==> !white(t[0]) && !white(t.last())
            &&& t.len() == 0 ==> blank(s)
        }),
{
    let from = lemma_trimmed_start(s);
    let u = trimmed_start(s);
    let k = lemma_trimmed_end(u);
    let t = trimmed_end(u);
    let to = from + k;
    assert(t =~= s.subrange(from, to));
    assert(s.subrange(0, from) =~= s.take(from));
    assert(s.subrange(to, s.len() as int) =~= u.skip(k));
    if t.len() == 0 {
        assert forall|i: int| 0 <= i < s.len() implies white(#[trigger] s[i]) by {
            if i < from {
                assert(s.take(from)[i] == s[i]);
            } else {
                assert(u.skip(k)[i - to] == s[i]);
            }
        }
    }
}

/// A text holds another one exactly where it is that one with something before it and
/// something after it.
pub proof fn held_texts_stand_between_others(before: Seq<char>, part: Seq<char>, after: Seq<char>)
    ensures
        holds(before + part + after, part),
{
    let s = before + part + after;
    assert(s.subrange(before.len() as int, (before.len() + part.len()) as int) =~= part);
    assert(stands_at(s, part, before.len() as int));
}


proof fn lemma_walk(s: Seq<char>, sep: char, at: int, end: int, current: Seq<char>)
    requires
        0 <= at <= end <= s.len(),
        forall|i: int| at <= i < end ==> s[i] != sep,
    ensures
        pieces_from(s, sep, at, current) == pieces_from(s, sep, end, current + s.subrange(at, end)),
    decreases end - at,
{
    if at == end {
        assert(current + s.subrange(at, end) =~= current);
    } else {
        lemma_walk(s, sep, at + 1, end, current.push(s[at]));
        assert(current.push(s[at]) + s.subrange(at + 1, end) =~= current + s.subrange(at, end));
    }
}

proof fn lemma_split_back(s: Seq<char>, sep: char, at: int, parts: Seq<Seq<char>>)
    requires
        0 <= at <= s.len(),
        parts.len() > 0,
        forall|i: int| 0 <= i < parts.len() ==> !(#[trigger] parts[i]).contains(sep),
        s.skip(at) == separated(parts, seq![sep], parts.len()),
    ensures
        pieces_from(s, sep, at, Seq::empty()) == parts,
    decreases parts.len(),
{
    let none = Seq::<char>::empty();
    let first = parts[0];
    let end = at + first.len();
    let rest = parts.drop_first();
    assert(parts =~= seq![first] + rest);
    if rest.len() > 0 {
        lemma_separated_front(first, rest, seq![sep], rest.len());
        assert(s.skip(at) == first + seq![sep] + separated(rest, seq![sep], rest.len()));
        assert(s.skip(at)[first.len() as int] == sep);
        assert(s[end] == sep);
        assert(s.skip(end + 1) =~= separated(rest, seq![sep], rest.len())) by {
            assert(s.skip(at).skip(first.len() as int + 1) =~= s.skip(end + 1));
            assert((first + seq![sep] + separated(rest, seq![sep], rest.len())).skip(
                first.len() as int + 1,
            ) =~= separated(rest, seq![sep], rest.len()));
        }
        assert forall|i: int| 0 <= i < rest.len() implies !(#[trigger] rest[i]).contains(sep) by {
            assert(rest[i] == parts[i + 1]);
        }
        lemma_split_back(s, sep, end + 1, rest);
    } else {
        assert(separated(parts, seq![sep], 1) == first);
    }
    assert forall|i: int| at <= i < end implies s[i] != sep by {
        assert(s[i] == s.skip(at)[i - at]);
        assert(first[i - at] == s[i]);
        assert(first.contains(first[i - at]));
    }
    lemma_walk(s, sep, at, end, none);
    assert(none + s.subrange(at, end) =~= first) by {
        assert forall|i: int| 0 <= i < first.len() implies s[at + i] == first[i] by {
            assert(s[at + i] == s.skip(at)[i]);
        }
    }
}

/// Texts that are free of a separator are the pieces of what they make with the
/// separator between them.
pub proof fn separated_texts_are_the_pieces(parts: Seq<Seq<char>>, sep: char)
    requires
        parts.len() > 0,
        forall|i: int| 0 <= i < parts.len() ==> !(#[trigger] parts[i]).contains(sep),
    ensures
        pieces_from(separated(parts, seq![sep], parts.len()), sep, 0, Seq::empty()) == parts,
{
    let s = separated(parts, seq![sep], parts.len());
    assert(s.skip(0) =~= s);
    lemma_split_back(s, sep, 0, parts);
}

/// A text that begins and ends with something else than white space is not trimmed.
pub proof fn trimming_keeps_the_rest(s: Seq<char>)
    requires
        s.len() > 0,
        !white(s[0]),
        !white(s.last()),
    ensures
        trimmed_end(trimmed_start(s)) == s,
{
}

/// A longer text holds what its parts hold.
pub proof fn longer_texts_hold_their_parts(
    before: Seq<char>,
    s: Seq<char>,
    after: Seq<char>,
    part: Seq<char>,
)
    requires
        holds(s, part),
    ensures
        holds(before + s + after, part),
{
    let i = choose|i: int| #[trigger] stands_at(s, part, i);
    let all = before + s + after;
    let k = before.len() + i;
    assert(all.subrange(k, k + part.len()) =~= s.subrange(i, i + part.len()));
    assert(stands_at(all, part, k));
}

/// A list of numbers is their decimal notations with a comma and a space between them.
pub proof fn lists_are_separated_numbers(v: Seq<u64>, n: nat)
    requires
        n <= v.len(),
    ensures
        comma_separated(v, n) == separated(
            v.map_values(|x: u64| decimal(x as nat)),
            ", "@,
            n,
        ),
    decreases n,
{
    if n > 1 {
        lists_are_separated_numbers(v, (n - 1) as nat);
    }
}
} // verus!
