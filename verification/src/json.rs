//! Character-level pieces of the persisted text format: whitespace, fixed
//! tokens, integers and quoted strings, each with a specification-level
//! parser, an executable parser proved against it, an encoder, and the lemmas
//! that make decoding invert encoding.

use vstd::prelude::*;
use vstd::arithmetic::div_mod::lemma_fundamental_div_mod;

verus! {

/// Concatenation of character sequences is associative; kept ambient where
/// token concatenations pile up.
pub broadcast proof fn lemma_seq_add_assoc(a: Seq<char>, b: Seq<char>, c: Seq<char>)
    ensures
        #[trigger] ((a + b) + c) == a + (b + c),
{
    assert((a + b) + c =~= a + (b + c));
}

// ---------------------------------------------------------------------------
// Whitespace
// ---------------------------------------------------------------------------
/// The whitespace characters the format accepts between tokens.
pub open spec fn is_ws(c: char) -> bool {
    c == ' ' || c == '\n' || c == '\t' || c == '\r'
}

/// Every character of the sequence is whitespace.
pub open spec fn all_ws(w: Seq<char>) -> bool {
    forall|k: int| 0 <= k < w.len() ==> is_ws(#[trigger] w[k])
}

/// The suffix that remains once leading whitespace is dropped.
pub open spec fn skip_ws(s: Seq<char>) -> Seq<char>
    decreases s.len(),
{
    if s.len() > 0 && is_ws(s[0]) {
        skip_ws(s.drop_first())
    } else {
        s
    }
}

pub proof fn lemma_skip_ws_all_ws(w: Seq<char>, rest: Seq<char>)
    requires
        all_ws(w),
    ensures
        skip_ws(w + rest) == skip_ws(rest),
    decreases w.len(),
{
    if w.len() == 0 {
        assert(w + rest =~= rest);
    } else {
        assert((w + rest)[0] == w[0]);
        assert((w + rest).drop_first() =~= w.drop_first() + rest);
        assert(all_ws(w.drop_first()));
        lemma_skip_ws_all_ws(w.drop_first(), rest);
    }
}

// ---------------------------------------------------------------------------
// Fixed tokens
// ---------------------------------------------------------------------------
/// `p` is a prefix of `s`.
pub open spec fn has_prefix(s: Seq<char>, p: Seq<char>) -> bool {
    p.len() <= s.len() && s.subrange(0, p.len() as int) == p
}

/// Skip whitespace, then demand the exact token `tok`; what follows it
/// remains.
pub open spec fn expect_tok(s: Seq<char>, tok: Seq<char>) -> Option<Seq<char>> {
    let s1 = skip_ws(s);
    if has_prefix(s1, tok) {
        Some(s1.skip(tok.len() as int))
    } else {
        None
    }
}

pub proof fn lemma_expect_tok_round(w: Seq<char>, tok: Seq<char>, rest: Seq<char>)
    requires
        all_ws(w),
        tok.len() > 0,
        !is_ws(tok[0]),
    ensures
        expect_tok(w + tok + rest, tok) == Some(rest),
{
    assert(w + tok + rest =~= w + (tok + rest));
    lemma_skip_ws_all_ws(w, tok + rest);
    assert((tok + rest)[0] == tok[0]);
    assert(skip_ws(tok + rest) == tok + rest);
    assert((tok + rest).subrange(0, tok.len() as int) =~= tok);
    assert((tok + rest).skip(tok.len() as int) =~= rest);
}

// ---------------------------------------------------------------------------
// Integers
// ---------------------------------------------------------------------------
pub open spec fn is_digit(c: char) -> bool {
    48 <= c as u32 && c as u32 <= 57
}

pub open spec fn digit_val(c: char) -> int {
    c as u32 - 48
}

pub open spec fn digit_char(d: int) -> char {
    if d == 0 {
        '0'
    } else if d == 1 {
        '1'
    } else if d == 2 {
        '2'
    } else if d == 3 {
        '3'
    } else if d == 4 {
        '4'
    } else if d == 5 {
        '5'
    } else if d == 6 {
        '6'
    } else if d == 7 {
        '7'
    } else if d == 8 {
        '8'
    } else {
        '9'
    }
}

pub proof fn lemma_digit_char_val(d: int)
    requires
        0 <= d < 10,
    ensures
        is_digit(digit_char(d)),
        digit_val(digit_char(d)) == d,
        !is_ws(digit_char(d)),
{
}

/// The decimal digits of `n`, most significant first.
pub open spec fn nat_digits(n: nat) -> Seq<char>
    decreases n,
{
    if n < 10 {
        seq![digit_char(n as int)]
    } else {
        nat_digits(n / 10).push(digit_char((n % 10) as int))
    }
}

/// The decimal rendering of an integer, a leading minus sign if negative.
pub open spec fn int_chars(v: int) -> Seq<char> {
    if v < 0 {
        seq!['-'] + nat_digits((-v) as nat)
    } else {
        nat_digits(v as nat)
    }
}

pub open spec fn pow10(k: nat) -> int
    decreases k,
{
    if k == 0 {
        1
    } else {
        10 * pow10((k - 1) as nat)
    }
}

pub open spec fn digit_count(n: nat) -> nat
    decreases n,
{
    if n < 10 {
        1
    } else {
        1 + digit_count(n / 10)
    }
}

pub proof fn lemma_nat_digits_are_digits(n: nat)
    ensures
        nat_digits(n).len() == digit_count(n),
        forall|k: int| 0 <= k < nat_digits(n).len() ==> is_digit(#[trigger] nat_digits(n)[k]),
    decreases n,
{
    if n < 10 {
        lemma_digit_char_val(n as int);
    } else {
        lemma_nat_digits_are_digits(n / 10);
        lemma_digit_char_val((n % 10) as int);
    }
}

/// Consume leading digits, folding them onto `acc`; the value and the rest.
pub open spec fn parse_digits(s: Seq<char>, acc: int) -> (int, Seq<char>)
    decreases s.len(),
{
    if s.len() > 0 && is_digit(s[0]) {
        parse_digits(s.drop_first(), acc * 10 + digit_val(s[0]))
    } else {
        (acc, s)
    }
}

/// Parsing the digits of `n` continues after them with `n` folded onto the
/// accumulator.
pub proof fn lemma_parse_digits_region(n: nat, rest: Seq<char>, acc: int)
    ensures
        parse_digits(nat_digits(n) + rest, acc) == parse_digits(
            rest,
            acc * pow10(digit_count(n)) + n,
        ),
    decreases n,
{
    if n < 10 {
        lemma_digit_char_val(n as int);
        let s = nat_digits(n) + rest;
        assert(s[0] == digit_char(n as int));
        assert(s.drop_first() =~= rest);
        assert(pow10(0) == 1);
        assert(pow10(1) == 10);
    } else {
        let c = digit_char((n % 10) as int);
        let k1 = digit_count(n / 10);
        lemma_digit_char_val((n % 10) as int);
        assert(nat_digits(n) + rest =~= nat_digits(n / 10) + (seq![c] + rest));
        lemma_parse_digits_region(n / 10, seq![c] + rest, acc);
        let mid = acc * pow10(k1) + n / 10;
        let s2 = seq![c] + rest;
        assert(s2[0] == c);
        assert(s2.drop_first() =~= rest);
        assert(parse_digits(s2, mid) == parse_digits(rest, mid * 10 + (n % 10)));
        assert(pow10(k1 + 1) == 10 * pow10(k1));
        lemma_fundamental_div_mod(n as int, 10);
        assert(mid * 10 + (n % 10) == acc * pow10(k1 + 1) + n) by (nonlinear_arith)
            requires
                mid == acc * pow10(k1) + n / 10,
                pow10(k1 + 1) == 10 * pow10(k1),
                n == 10 * (n as int / 10) + n as int % 10,
        ;
        assert(digit_count(n) == k1 + 1);
    }
}

/// Skip whitespace, then parse an optionally signed decimal integer.
pub open spec fn parse_int(s: Seq<char>) -> Option<(int, Seq<char>)> {
    let s1 = skip_ws(s);
    if s1.len() > 0 && s1[0] == '-' {
        if s1.len() >= 2 && is_digit(s1[1]) {
            let (v, r) = parse_digits(s1.skip(1), 0);
            Some((-v, r))
        } else {
            None
        }
    } else if s1.len() > 0 && is_digit(s1[0]) {
        let (v, r) = parse_digits(s1, 0);
        Some((v, r))
    } else {
        None
    }
}

/// `parse_int`, accepted only when the value fits the item id type.
pub open spec fn parse_i32(s: Seq<char>) -> Option<(int, Seq<char>)> {
    match parse_int(s) {
        Some((v, r)) => if i32::MIN <= v <= i32::MAX {
            Some((v, r))
        } else {
            None
        },
        None => None,
    }
}

pub proof fn lemma_parse_int_round(v: int, w: Seq<char>, rest: Seq<char>)
    requires
        all_ws(w),
        rest.len() == 0 || !is_digit(rest[0]),
    ensures
        parse_int(w + int_chars(v) + rest) == Some((v, rest)),
{
    let s = w + int_chars(v) + rest;
    assert(s =~= w + (int_chars(v) + rest));
    lemma_skip_ws_all_ws(w, int_chars(v) + rest);
    if v < 0 {
        let n = (-v) as nat;
        lemma_nat_digits_are_digits(n);
        let x = int_chars(v) + rest;
        assert(int_chars(v) =~= seq!['-'] + nat_digits(n));
        assert(x[0] == '-');
        assert(skip_ws(x) == x);
        assert(x[1] == nat_digits(n)[0]);
        assert(is_digit(x[1]));
        assert(x.skip(1) =~= nat_digits(n) + rest);
        lemma_parse_digits_region(n, rest, 0);
        assert(0 * pow10(digit_count(n)) + n == n);
        assert(parse_digits(rest, n as int) == (n as int, rest));
    } else {
        let n = v as nat;
        lemma_nat_digits_are_digits(n);
        let x = int_chars(v) + rest;
        assert(x[0] == nat_digits(n)[0]);
        assert(is_digit(x[0]));
        assert(!is_ws(x[0]));
        assert(x[0] as u32 != 45) by {
            assert(is_digit(x[0]));
        }
        assert(x[0] != '-');
        assert(skip_ws(x) == x);
        assert(x =~= nat_digits(n) + rest);
        lemma_parse_digits_region(n, rest, 0);
        assert(0 * pow10(digit_count(n)) + n == n);
        assert(parse_digits(rest, v) == (v, rest));
    }
}

pub proof fn lemma_parse_i32_round(v: int, w: Seq<char>, rest: Seq<char>)
    requires
        all_ws(w),
        rest.len() == 0 || !is_digit(rest[0]),
        i32::MIN <= v <= i32::MAX,
    ensures
        parse_i32(w + int_chars(v) + rest) == Some((v, rest)),
{
    lemma_parse_int_round(v, w, rest);
}

// ---------------------------------------------------------------------------
// Quoted strings
// ---------------------------------------------------------------------------
/// A control character, which the format must not leave raw inside a string.
pub open spec fn is_ctl(c: char) -> bool {
    (c as u32) < 32
}

pub open spec fn is_hex(c: char) -> bool {
    (48 <= c as u32 && c as u32 <= 57) || (97 <= c as u32 && c as u32 <= 102) || (65 <= c as u32
        && c as u32 <= 70)
}

pub open spec fn hex_val(c: char) -> int {
    if 48 <= c as u32 && c as u32 <= 57 {
        c as u32 - 48
    } else if 97 <= c as u32 && c as u32 <= 102 {
        c as u32 - 87
    } else {
        c as u32 - 55
    }
}

/// The lower-case hex digit for a value below sixteen.
pub open spec fn hex_digit(d: int) -> char {
    if d < 10 {
        digit_char(d)
    } else if d == 10 {
        'a'
    } else if d == 11 {
        'b'
    } else if d == 12 {
        'c'
    } else if d == 13 {
        'd'
    } else if d == 14 {
        'e'
    } else {
        'f'
    }
}

pub proof fn lemma_hex_digit_val(d: int)
    requires
        0 <= d < 16,
    ensures
        is_hex(hex_digit(d)),
        hex_val(hex_digit(d)) == d,
{
}

/// The control character with the given code.
pub open spec fn ctl_char(n: int) -> char {
    if n == 0 {
        '\u{0000}'
    } else if n == 1 {
        '\u{0001}'
    } else if n == 2 {
        '\u{0002}'
    } else if n == 3 {
        '\u{0003}'
    } else if n == 4 {
        '\u{0004}'
    } else if n == 5 {
        '\u{0005}'
    } else if n == 6 {
        '\u{0006}'
    } else if n == 7 {
        '\u{0007}'
    } else if n == 8 {
        '\u{0008}'
    } else if n == 9 {
        '\u{0009}'
    } else if n == 10 {
        '\u{000a}'
    } else if n == 11 {
        '\u{000b}'
    } else if n == 12 {
        '\u{000c}'
    } else if n == 13 {
        '\u{000d}'
    } else if n == 14 {
        '\u{000e}'
    } else if n == 15 {
        '\u{000f}'
    } else if n == 16 {
        '\u{0010}'
    } else if n == 17 {
        '\u{0011}'
    } else if n == 18 {
        '\u{0012}'
    } else if n == 19 {
        '\u{0013}'
    } else if n == 20 {
        '\u{0014}'
    } else if n == 21 {
        '\u{0015}'
    } else if n == 22 {
        '\u{0016}'
    } else if n == 23 {
        '\u{0017}'
    } else if n == 24 {
        '\u{0018}'
    } else if n == 25 {
        '\u{0019}'
    } else if n == 26 {
        '\u{001a}'
    } else if n == 27 {
        '\u{001b}'
    } else if n == 28 {
        '\u{001c}'
    } else if n == 29 {
        '\u{001d}'
    } else if n == 30 {
        '\u{001e}'
    } else {
        '\u{001f}'
    }
}

pub proof fn lemma_ctl_char_code(n: int)
    requires
        0 <= n < 32,
    ensures
        ctl_char(n) as u32 == n,
        is_ctl(ctl_char(n)),
{
}

/// Characters with equal code points are equal.
pub proof fn lemma_char_code_inj(c1: char, c2: char)
    requires
        c1 as u32 == c2 as u32,
    ensures
        c1 == c2,
{
}

/// What a single-letter backslash escape stands for; `u` escapes are handled
/// apart, and anything else after a backslash is malformed.
pub open spec fn unescape_char(c: char) -> Option<char> {
    if c == '"' {
        Some('"')
    } else if c == '\\' {
        Some('\\')
    } else if c == '/' {
        Some('/')
    } else if c == 'n' {
        Some('\n')
    } else if c == 'r' {
        Some('\r')
    } else if c == 't' {
        Some('\t')
    } else if c == 'b' {
        Some('\u{0008}')
    } else if c == 'f' {
        Some('\u{000c}')
    } else {
        None
    }
}

/// The escape sequence a character is written as inside a quoted string:
/// named escapes for the quote, the backslash and the common whitespace,
/// `\u00XX` for the remaining control characters, the character itself
/// otherwise.
pub open spec fn escape_char(c: char) -> Seq<char> {
    if c == '"' {
        seq!['\\', '"']
    } else if c == '\\' {
        seq!['\\', '\\']
    } else if c == '\n' {
        seq!['\\', 'n']
    } else if c == '\r' {
        seq!['\\', 'r']
    } else if c == '\t' {
        seq!['\\', 't']
    } else if is_ctl(c) {
        seq!['\\', 'u', '0', '0', hex_digit((c as u32 / 16) as int), hex_digit((c as u32 % 16) as int)]
    } else {
        seq![c]
    }
}

/// A whole string escaped, character by character.
pub open spec fn escape_str(t: Seq<char>) -> Seq<char>
    decreases t.len(),
{
    if t.len() == 0 {
        Seq::empty()
    } else {
        escape_char(t[0]) + escape_str(t.drop_first())
    }
}

pub proof fn lemma_escape_str_push(a: Seq<char>, x: char)
    ensures
        escape_str(a.push(x)) == escape_str(a) + escape_char(x),
    decreases a.len(),
{
    if a.len() == 0 {
        assert(a.push(x)[0] == x);
        assert(a.push(x).drop_first() =~= Seq::<char>::empty());
        assert(escape_str(Seq::<char>::empty()) == Seq::<char>::empty());
        assert(escape_str(a.push(x).drop_first()) == Seq::<char>::empty());
        assert(escape_str(a.push(x)) == escape_char(x) + Seq::<char>::empty());
        assert(escape_char(x) + Seq::<char>::empty() =~= escape_char(x));
        assert(escape_str(a) + escape_char(x) =~= escape_char(x));
    } else {
        assert(a.push(x)[0] == a[0]);
        assert(a.push(x).drop_first() =~= a.drop_first().push(x));
        lemma_escape_str_push(a.drop_first(), x);
        assert(escape_char(a[0]) + (escape_str(a.drop_first()) + escape_char(x)) =~= (escape_char(
            a[0],
        ) + escape_str(a.drop_first())) + escape_char(x));
    }
}

/// The body of a quoted string: everything up to the unescaped closing quote,
/// folded onto `acc`.
pub open spec fn parse_string_body(s: Seq<char>, acc: Seq<char>) -> Option<(Seq<char>, Seq<char>)>
    decreases s.len(),
{
    if s.len() == 0 {
        None
    } else if s[0] == '"' {
        Some((acc, s.drop_first()))
    } else if s[0] == '\\' {
        if s.len() >= 2 && s[1] == 'u' {
            if s.len() >= 6 && s[2] == '0' && s[3] == '0' && is_hex(s[4]) && is_hex(s[5]) && 16
                * hex_val(s[4]) + hex_val(s[5]) < 32 {
                parse_string_body(s.skip(6), acc.push(ctl_char(16 * hex_val(s[4]) + hex_val(s[5]))))
            } else {
                None
            }
        } else if s.len() >= 2 && unescape_char(s[1]) is Some {
            parse_string_body(s.skip(2), acc.push(unescape_char(s[1])->0))
        } else {
            None
        }
    } else {
        parse_string_body(s.drop_first(), acc.push(s[0]))
    }
}

/// Skip whitespace, then parse a quoted string.
pub open spec fn parse_string(s: Seq<char>) -> Option<(Seq<char>, Seq<char>)> {
    let s1 = skip_ws(s);
    if s1.len() > 0 && s1[0] == '"' {
        parse_string_body(s1.drop_first(), Seq::empty())
    } else {
        None
    }
}

pub proof fn lemma_parse_string_body_round(t: Seq<char>, rest: Seq<char>, acc: Seq<char>)
    ensures
        parse_string_body(escape_str(t) + seq!['"'] + rest, acc) == Some((acc + t, rest)),
    decreases t.len(),
{
    let s = escape_str(t) + seq!['"'] + rest;
    if t.len() == 0 {
        assert(s =~= seq!['"'] + rest);
        assert(s[0] == '"');
        assert(s.drop_first() =~= rest);
        assert(acc + t =~= acc);
    } else {
        let c = t[0];
        assert(escape_str(t) == escape_char(c) + escape_str(t.drop_first()));
        if c == '"' || c == '\\' || c == '\n' || c == '\r' || c == '\t' {
            assert(escape_char(c).len() == 2);
            assert(escape_char(c)[0] == '\\');
            assert(s[0] == '\\');
            assert(s[1] == escape_char(c)[1]);
            assert(s[1] != 'u');
            assert(unescape_char(s[1]) == Some::<char>(c));
            assert(s.skip(2) =~= escape_str(t.drop_first()) + seq!['"'] + rest);
            lemma_parse_string_body_round(t.drop_first(), rest, acc.push(c));
            assert(acc.push(c) + t.drop_first() =~= acc + t);
        } else if is_ctl(c) {
            let hi = (c as u32 / 16) as int;
            let lo = (c as u32 % 16) as int;
            assert(0 <= hi < 2 && 0 <= lo < 16);
            lemma_hex_digit_val(hi);
            lemma_hex_digit_val(lo);
            assert(escape_char(c) == seq!['\\', 'u', '0', '0', hex_digit(hi), hex_digit(lo)]);
            assert(s[0] == '\\' && s[1] == 'u' && s[2] == '0' && s[3] == '0');
            assert(s[4] == hex_digit(hi) && s[5] == hex_digit(lo));
            assert(16 * hex_val(s[4]) + hex_val(s[5]) == c as u32) by {
                lemma_fundamental_div_mod(c as u32 as int, 16);
            }
            lemma_ctl_char_code(16 * hex_val(s[4]) + hex_val(s[5]));
            lemma_char_code_inj(ctl_char(16 * hex_val(s[4]) + hex_val(s[5])), c);
            assert(s.skip(6) =~= escape_str(t.drop_first()) + seq!['"'] + rest);
            lemma_parse_string_body_round(t.drop_first(), rest, acc.push(c));
            assert(acc.push(c) + t.drop_first() =~= acc + t);
        } else {
            assert(escape_char(c) =~= seq![c]);
            assert(s[0] == c);
            assert(s.drop_first() =~= escape_str(t.drop_first()) + seq!['"'] + rest);
            lemma_parse_string_body_round(t.drop_first(), rest, acc.push(c));
            assert(acc.push(c) + t.drop_first() =~= acc + t);
        }
    }
}

pub proof fn lemma_parse_string_round(t: Seq<char>, w: Seq<char>, rest: Seq<char>)
    requires
        all_ws(w),
    ensures
        parse_string(w + "\""@ + escape_str(t) + "\""@ + rest) == Some((t, rest)),
{
    reveal_strlit("\"");
    let x = "\""@ + escape_str(t) + "\""@ + rest;
    let s = w + "\""@ + escape_str(t) + "\""@ + rest;
    assert(s =~= w + x);
    lemma_skip_ws_all_ws(w, x);
    assert(x[0] == '"');
    assert(!is_ws(x[0]));
    assert(skip_ws(x) == x);
    assert(x.drop_first() =~= escape_str(t) + seq!['"'] + rest);
    lemma_parse_string_body_round(t, rest, Seq::empty());
    assert(Seq::<char>::empty() + t =~= t);
}

// ---------------------------------------------------------------------------
// Executable character helpers
// ---------------------------------------------------------------------------
pub fn is_ws_char(c: char) -> (r: bool)
    ensures
        r == is_ws(c),
{
    c == ' ' || c == '\n' || c == '\t' || c == '\r'
}

pub fn is_digit_char(c: char) -> (r: bool)
    ensures
        r == is_digit(c),
{
    let u = c as u32;
    48 <= u && u <= 57
}

pub fn digit_val_char(c: char) -> (r: u32)
    requires
        is_digit(c),
    ensures
        r as int == digit_val(c),
        r < 10,
{
    (c as u32) - 48
}

pub fn digit_char_of(d: u32) -> (r: char)
    requires
        d < 10,
    ensures
        r == digit_char(d as int),
{
    if d == 0 {
        '0'
    } else if d == 1 {
        '1'
    } else if d == 2 {
        '2'
    } else if d == 3 {
        '3'
    } else if d == 4 {
        '4'
    } else if d == 5 {
        '5'
    } else if d == 6 {
        '6'
    } else if d == 7 {
        '7'
    } else if d == 8 {
        '8'
    } else {
        '9'
    }
}

pub fn unescape_char_of(c: char) -> (r: Option<char>)
    ensures
        r == unescape_char(c),
{
    if c == '"' {
        Some('"')
    } else if c == '\\' {
        Some('\\')
    } else if c == '/' {
        Some('/')
    } else if c == 'n' {
        Some('\n')
    } else if c == 'r' {
        Some('\r')
    } else if c == 't' {
        Some('\t')
    } else if c == 'b' {
        Some('\u{0008}')
    } else if c == 'f' {
        Some('\u{000c}')
    } else {
        None
    }
}

/// The hex digit's value, or `None` for any other character.
pub fn hex_val_of(c: char) -> (r: Option<u32>)
    ensures
        is_hex(c) ==> r == Some((hex_val(c) as u32)),
        !is_hex(c) ==> r is None,
{
    let u = c as u32;
    if 48 <= u && u <= 57 {
        Some(u - 48)
    } else if 97 <= u && u <= 102 {
        Some(u - 87)
    } else if 65 <= u && u <= 70 {
        Some(u - 55)
    } else {
        None
    }
}

/// The control character with the given code.
pub fn ctl_char_of(n: u32) -> (r: char)
    requires
        n < 32,
    ensures
        r == ctl_char(n as int),
{
    if n == 0 {
        '\u{0000}'
    } else if n == 1 {
        '\u{0001}'
    } else if n == 2 {
        '\u{0002}'
    } else if n == 3 {
        '\u{0003}'
    } else if n == 4 {
        '\u{0004}'
    } else if n == 5 {
        '\u{0005}'
    } else if n == 6 {
        '\u{0006}'
    } else if n == 7 {
        '\u{0007}'
    } else if n == 8 {
        '\u{0008}'
    } else if n == 9 {
        '\u{0009}'
    } else if n == 10 {
        '\u{000a}'
    } else if n == 11 {
        '\u{000b}'
    } else if n == 12 {
        '\u{000c}'
    } else if n == 13 {
        '\u{000d}'
    } else if n == 14 {
        '\u{000e}'
    } else if n == 15 {
        '\u{000f}'
    } else if n == 16 {
        '\u{0010}'
    } else if n == 17 {
        '\u{0011}'
    } else if n == 18 {
        '\u{0012}'
    } else if n == 19 {
        '\u{0013}'
    } else if n == 20 {
        '\u{0014}'
    } else if n == 21 {
        '\u{0015}'
    } else if n == 22 {
        '\u{0016}'
    } else if n == 23 {
        '\u{0017}'
    } else if n == 24 {
        '\u{0018}'
    } else if n == 25 {
        '\u{0019}'
    } else if n == 26 {
        '\u{001a}'
    } else if n == 27 {
        '\u{001b}'
    } else if n == 28 {
        '\u{001c}'
    } else if n == 29 {
        '\u{001d}'
    } else if n == 30 {
        '\u{001e}'
    } else {
        '\u{001f}'
    }
}

/// The lower-case hex digit for a value below sixteen.
pub fn hex_digit_of(d: u32) -> (r: char)
    requires
        d < 16,
    ensures
        r == hex_digit(d as int),
{
    if d < 10 {
        digit_char_of(d)
    } else if d == 10 {
        'a'
    } else if d == 11 {
        'b'
    } else if d == 12 {
        'c'
    } else if d == 13 {
        'd'
    } else if d == 14 {
        'e'
    } else {
        'f'
    }
}

/// Whether two character vectors hold the same characters.
pub fn chars_eq(a: &Vec<char>, b: &Vec<char>) -> (r: bool)
    ensures
        r == (a@ == b@),
{
    if a.len() != b.len() {
        return false;
    }
    let n = a.len();
    let mut k: usize = 0;
    while k < n
        invariant
            k <= n,
            n == a.len() && n == b.len(),
            forall|m: int| 0 <= m < k as int ==> a@[m] == b@[m],
        decreases n - k,
    {
        if a[k] != b[k] {
            return false;
        }
        k = k + 1;
    }
    proof {
        assert(a@ =~= b@);
    }
    true
}

// ---------------------------------------------------------------------------
// Executable parsers
// ---------------------------------------------------------------------------
/// Advance past leading whitespace.
pub fn skip_ws_at(v: &Vec<char>, i: usize) -> (j: usize)
    requires
        i <= v.len(),
    ensures
        i <= j <= v.len(),
        v@.skip(j as int) == skip_ws(v@.skip(i as int)),
{
    let mut j = i;
    while j < v.len() && is_ws_char(v[j])
        invariant
            i <= j <= v.len(),
            skip_ws(v@.skip(i as int)) == skip_ws(v@.skip(j as int)),
        decreases v.len() - j,
    {
        proof {
            assert(v@.skip(j as int)[0] == v@[j as int]);
            assert(v@.skip(j as int).drop_first() =~= v@.skip(j as int + 1));
        }
        j = j + 1;
    }
    proof {
        if j == v.len() {
            assert(v@.skip(j as int) =~= Seq::<char>::empty());
        } else {
            assert(v@.skip(j as int)[0] == v@[j as int]);
        }
    }
    j
}

/// Skip whitespace, then demand the exact token `tok`.
pub fn expect_at(v: &Vec<char>, i: usize, tok: &Vec<char>) -> (r: Option<usize>)
    requires
        i <= v.len(),
    ensures
        match expect_tok(v@.skip(i as int), tok@) {
            Some(srest) => {
                &&& r is Some
                &&& i <= r->0 <= v.len()
                &&& v@.skip(r->0 as int) == srest
            },
            None => r is None,
        },
{
    let ghost s1 = skip_ws(v@.skip(i as int));
    let j = skip_ws_at(v, i);
    let n = tok.len();
    if v.len() - j < n {
        assert(!has_prefix(s1, tok@));
        return None;
    }
    let mut k: usize = 0;
    while k < n
        invariant
            k <= n,
            i <= j,
            j + n <= v.len(),
            n == tok.len(),
            v@.skip(j as int) == s1,
            s1 == skip_ws(v@.skip(i as int)),
            forall|m: int| 0 <= m < k as int ==> v@[j + m] == tok@[m],
        decreases n - k,
    {
        if v[j + k] != tok[k] {
            proof {
                assert(s1[k as int] == v@[j + k as int]);
                if has_prefix(s1, tok@) {
                    assert(s1.subrange(0, tok@.len() as int) == tok@);
                    assert(s1.subrange(0, tok@.len() as int)[k as int] == s1[k as int]);
                    assert(false);
                }
            }
            return None;
        }
        k = k + 1;
    }
    proof {
        assert(s1.subrange(0, n as int) =~= tok@);
        assert(s1.skip(n as int) =~= v@.skip(j as int + n as int));
    }
    Some(j + n)
}

/// Consume leading digits; `None` in place of the value when it cannot fit
/// the id type.
fn parse_digits_at(v: &Vec<char>, i: usize) -> (r: (Option<u64>, usize))
    requires
        i <= v.len(),
    ensures
        i <= r.1 <= v.len(),
        v@.skip(r.1 as int) == parse_digits(v@.skip(i as int), 0).1,
        match r.0 {
            Some(u) => u as int == parse_digits(v@.skip(i as int), 0).0,
            None => parse_digits(v@.skip(i as int), 0).0 > u32::MAX as int,
        },
{
    let mut j = i;
    let mut acc: u64 = 0;
    let mut over: bool = false;
    let ghost mut gacc: int = 0;
    while j < v.len() && is_digit_char(v[j])
        invariant
            i <= j <= v.len(),
            gacc >= 0,
            parse_digits(v@.skip(i as int), 0) == parse_digits(v@.skip(j as int), gacc),
            !over ==> acc as int == gacc && acc <= u32::MAX as u64,
            over ==> gacc > u32::MAX as int,
        decreases v.len() - j,
    {
        let d = digit_val_char(v[j]);
        proof {
            assert(v@.skip(j as int)[0] == v@[j as int]);
            assert(v@.skip(j as int).drop_first() =~= v@.skip(j as int + 1));
        }
        proof {
            gacc = gacc * 10 + digit_val(v@[j as int]);
        }
        if !over {
            let newacc: u64 = acc * 10 + (d as u64);
            if newacc > (u32::MAX as u64) {
                over = true;
            } else {
                acc = newacc;
            }
        }
        j = j + 1;
    }
    proof {
        if j == v.len() {
            assert(v@.skip(j as int) =~= Seq::<char>::empty());
        } else {
            assert(v@.skip(j as int)[0] == v@[j as int]);
        }
        assert(parse_digits(v@.skip(j as int), gacc) == (gacc, v@.skip(j as int)));
    }
    if over {
        (None, j)
    } else {
        (Some(acc), j)
    }
}

/// Skip whitespace, then parse an optionally signed integer that fits the id
/// type; anything else, an overflowing value included, is malformed.
pub fn parse_i32_at(v: &Vec<char>, i: usize) -> (r: Option<(i32, usize)>)
    requires
        i <= v.len(),
    ensures
        match parse_i32(v@.skip(i as int)) {
            Some(p) => r is Some && ({
                let q = r->0;
                &&& q.0 as int == p.0
                &&& i <= q.1 <= v.len()
                &&& v@.skip(q.1 as int) == p.1
            }),
            None => r is None,
        },
{
    let ghost s1 = skip_ws(v@.skip(i as int));
    let j = skip_ws_at(v, i);
    if j == v.len() {
        proof {
            assert(s1 =~= Seq::<char>::empty());
        }
        return None;
    }
    proof {
        assert(s1[0] == v@[j as int]);
    }
    if v[j] == '-' {
        if j + 1 == v.len() {
            proof {
                assert(s1.len() == 1);
            }
            return None;
        }
        proof {
            assert(s1[1] == v@[j as int + 1]);
        }
        if !is_digit_char(v[j + 1]) {
            return None;
        }
        proof {
            assert(s1.skip(1) =~= v@.skip(j as int + 1));
        }
        let (ov, j2) = parse_digits_at(v, j + 1);
        let ghost val = parse_digits(s1.skip(1), 0).0;
        proof {
            lemma_parse_digits_nonneg(s1.skip(1), 0);
        }
        match ov {
            Some(u) => {
                if u <= 2147483647u64 {
                    return Some((-(u as i32), j2));
                } else if u == 2147483648u64 {
                    return Some((i32::MIN, j2));
                } else {
                    return None;
                }
            },
            None => {
                proof {
                    assert(val > u32::MAX as int);
                    assert(-val < i32::MIN);
                }
                return None;
            },
        }
    } else {
        if !is_digit_char(v[j]) {
            return None;
        }
        let (ov, j2) = parse_digits_at(v, j);
        let ghost val = parse_digits(s1, 0).0;
        proof {
            lemma_parse_digits_nonneg(s1, 0);
        }
        match ov {
            Some(u) => {
                if u <= 2147483647u64 {
                    return Some((u as i32, j2));
                } else {
                    return None;
                }
            },
            None => {
                return None;
            },
        }
    }
}

/// A parsed digit run never goes below its accumulator.
proof fn lemma_parse_digits_nonneg(s: Seq<char>, acc: int)
    requires
        acc >= 0,
    ensures
        parse_digits(s, acc).0 >= acc,
    decreases s.len(),
{
    if s.len() > 0 && is_digit(s[0]) {
        lemma_parse_digits_nonneg(s.drop_first(), acc * 10 + digit_val(s[0]));
    }
}

/// Skip whitespace, then parse a quoted string.
pub fn parse_string_at(v: &Vec<char>, i: usize) -> (r: Option<(Vec<char>, usize)>)
    requires
        i <= v.len(),
    ensures
        match parse_string(v@.skip(i as int)) {
            Some(p) => r is Some && ({
                let q = r->0;
                &&& q.0@ == p.0
                &&& i <= q.1 <= v.len()
                &&& v@.skip(q.1 as int) == p.1
            }),
            None => r is None,
        },
{
    let ghost s1 = skip_ws(v@.skip(i as int));
    let j = skip_ws_at(v, i);
    if j == v.len() {
        proof {
            assert(s1 =~= Seq::<char>::empty());
        }
        return None;
    }
    proof {
        assert(s1[0] == v@[j as int]);
    }
    if v[j] != '"' {
        return None;
    }
    proof {
        assert(s1.drop_first() =~= v@.skip(j as int + 1));
    }
    let mut acc: Vec<char> = Vec::new();
    let mut cur = j + 1;
    while cur < v.len()
        invariant
            i <= j < cur <= v.len(),
            v@.skip(j as int) == skip_ws(v@.skip(i as int)),
            v@[j as int] == '"',
            parse_string_body(v@.skip(j as int + 1), Seq::empty()) == parse_string_body(
                v@.skip(cur as int),
                acc@,
            ),
        decreases v.len() - cur,
    {
        let c = v[cur];
        proof {
            lemma_parse_string_link(v@, i as int, j as int);
            assert(v@.skip(cur as int)[0] == v@[cur as int]);
        }
        if c == '"' {
            proof {
                assert(v@.skip(cur as int).drop_first() =~= v@.skip(cur as int + 1));
            }
            return Some((acc, cur + 1));
        } else if c == '\\' {
            if cur + 1 == v.len() {
                proof {
                    assert(v@.skip(cur as int).len() == 1);
                }
                return None;
            }
            proof {
                assert(v@.skip(cur as int)[1] == v@[cur as int + 1]);
            }
            if v[cur + 1] == 'u' {
                if v.len() - cur < 6 {
                    proof {
                        assert(v@.skip(cur as int).len() < 6);
                    }
                    return None;
                }
                proof {
                    assert(v@.skip(cur as int)[2] == v@[cur as int + 2]);
                    assert(v@.skip(cur as int)[3] == v@[cur as int + 3]);
                    assert(v@.skip(cur as int)[4] == v@[cur as int + 4]);
                    assert(v@.skip(cur as int)[5] == v@[cur as int + 5]);
                }
                if v[cur + 2] != '0' || v[cur + 3] != '0' {
                    return None;
                }
                let h1 = hex_val_of(v[cur + 4]);
                let h2 = hex_val_of(v[cur + 5]);
                match (h1, h2) {
                    (Some(a), Some(b)) => {
                        let code = 16 * a + b;
                        if code < 32 {
                            proof {
                                assert(v@.skip(cur as int).skip(6) =~= v@.skip(cur as int + 6));
                            }
                            let d = ctl_char_of(code);
                            acc.push(d);
                            cur = cur + 6;
                        } else {
                            return None;
                        }
                    },
                    _ => {
                        return None;
                    },
                }
            } else {
                match unescape_char_of(v[cur + 1]) {
                    Some(d) => {
                        proof {
                            assert(v@.skip(cur as int).skip(2) =~= v@.skip(cur as int + 2));
                        }
                        acc.push(d);
                        cur = cur + 2;
                    },
                    None => {
                        return None;
                    },
                }
            }
        } else {
            proof {
                assert(v@.skip(cur as int).drop_first() =~= v@.skip(cur as int + 1));
            }
            acc.push(c);
            cur = cur + 1;
        }
    }
    proof {
        lemma_parse_string_link(v@, i as int, j as int);
        assert(v@.skip(cur as int) =~= Seq::<char>::empty());
    }
    None
}

/// When skipping whitespace lands on a quote at position `j`, the whole
/// string parse is the body parse from `j + 1`.
proof fn lemma_parse_string_link(s: Seq<char>, i: int, j: int)
    requires
        0 <= i <= j < s.len(),
        s.skip(j) == skip_ws(s.skip(i)),
        s[j] == '"',
    ensures
        parse_string(s.skip(i)) == parse_string_body(s.skip(j + 1), Seq::<char>::empty()),
{
    let s1 = skip_ws(s.skip(i));
    assert(s1[0] == s[j]);
    assert(s1.len() > 0);
    assert(s1.drop_first() =~= s.skip(j + 1));
}

// ---------------------------------------------------------------------------
// Executable encoders
// ---------------------------------------------------------------------------
/// Append the escape sequence of one character.
pub fn push_escape_char(out: &mut Vec<char>, c: char)
    ensures
        final(out)@ == old(out)@ + escape_char(c),
{
    if c == '"' {
        out.push('\\');
        out.push('"');
    } else if c == '\\' {
        out.push('\\');
        out.push('\\');
    } else if c == '\n' {
        out.push('\\');
        out.push('n');
    } else if c == '\r' {
        out.push('\\');
        out.push('r');
    } else if c == '\t' {
        out.push('\\');
        out.push('t');
    } else if (c as u32) < 32 {
        out.push('\\');
        out.push('u');
        out.push('0');
        out.push('0');
        let hi = hex_digit_of((c as u32) / 16);
        out.push(hi);
        let lo = hex_digit_of((c as u32) % 16);
        out.push(lo);
    } else {
        out.push(c);
    }
    proof {
        assert(out@ =~= old(out)@ + escape_char(c));
    }
}

/// Append the escaped form of a whole string.
pub fn push_escaped(out: &mut Vec<char>, t: &Vec<char>)
    ensures
        final(out)@ == old(out)@ + escape_str(t@),
{
    let n = t.len();
    let mut i: usize = 0;
    while i < n
        invariant
            n == t.len(),
            i <= n,
            out@ == old(out)@ + escape_str(t@.take(i as int)),
        decreases n - i,
    {
        push_escape_char(out, t[i]);
        proof {
            lemma_escape_str_push(t@.take(i as int), t@[i as int]);
            assert(t@.take(i as int + 1) =~= t@.take(i as int).push(t@[i as int]));
            assert(old(out)@ + escape_str(t@.take(i as int)) + escape_char(t@[i as int]) =~= old(
                out,
            )@ + (escape_str(t@.take(i as int)) + escape_char(t@[i as int])));
        }
        i = i + 1;
    }
    proof {
        assert(t@.take(n as int) =~= t@);
    }
}

/// Append the decimal digits of `n`, most significant first.
pub fn push_nat_digits(out: &mut Vec<char>, n: u32)
    ensures
        final(out)@ == old(out)@ + nat_digits(n as nat),
    decreases n,
{
    if n < 10 {
        let c = digit_char_of(n);
        out.push(c);
        proof {
            assert(out@ =~= old(out)@ + nat_digits(n as nat));
        }
    } else {
        push_nat_digits(out, n / 10);
        let c = digit_char_of(n % 10);
        out.push(c);
        proof {
            assert(out@ =~= old(out)@ + nat_digits(n as nat));
        }
    }
}

/// Append the decimal rendering of an id-sized integer.
pub fn push_i32_chars(out: &mut Vec<char>, x: i32)
    ensures
        final(out)@ == old(out)@ + int_chars(x as int),
{
    if x < 0 {
        out.push('-');
        let mag64: i64 = -(x as i64);
        let mag: u32 = mag64 as u32;
        proof {
            assert(mag as int == -(x as int));
        }
        push_nat_digits(out, mag);
        proof {
            assert(out@ =~= old(out)@ + int_chars(x as int));
        }
    } else {
        push_nat_digits(out, x as u32);
    }
}



} // verus!
