use vstd::prelude::*;

verus! {

/// Which of the three bracket shapes a bracket token has.
#[derive(Debug, PartialEq, Eq, Clone, Copy, Structural)]
pub enum BracketType {
    Paren,
    Square,
    Curly,
}

/// A bracket token: its shape and whether it closes (`right`) or opens.
#[derive(Debug, PartialEq, Eq, Clone, Copy, Structural)]
pub struct Bracket {
    pub right: bool,
    pub ty: BracketType,
}

/// One lexical token of a configuration document.
#[derive(Debug, PartialEq, Eq, Clone)]
pub enum ScanToken {
    Ident(String),
    Int(u32),
    Comma,
    Bracket(Bracket),
    Colon,
    Semicolon,
}

/// The mathematical value of a token: identifiers as character sequences.
pub enum TokenView {
    Ident(Seq<char>),
    Int(u32),
    Comma,
    Bracket(Bracket),
    Colon,
    Semicolon,
}

impl View for ScanToken {
    type V = TokenView;

    open spec fn view(&self) -> TokenView {
        match self {
            ScanToken::Ident(s) => TokenView::Ident(s@),
            ScanToken::Int(n) => TokenView::Int(*n),
            ScanToken::Comma => TokenView::Comma,
            ScanToken::Bracket(b) => TokenView::Bracket(*b),
            ScanToken::Colon => TokenView::Colon,
            ScanToken::Semicolon => TokenView::Semicolon,
        }
    }
}

impl From<Bracket> for ScanToken {
    fn from(value: Bracket) -> (r: ScanToken)
        ensures
            r == ScanToken::Bracket(value),
    {
        ScanToken::Bracket(value)
    }
}

impl vstd::std_specs::convert::FromSpecImpl<Bracket> for ScanToken {
    open spec fn obeys_from_spec() -> bool {
        true
    }

    open spec fn from_spec(v: Bracket) -> ScanToken {
        ScanToken::Bracket(v)
    }
}

pub open spec fn token_views(ts: Seq<ScanToken>) -> Seq<TokenView> {
    ts.map_values(|t: ScanToken| t@)
}

/// `A`..`Z` or `a`..`z`.
pub open spec fn is_letter(b: u8) -> bool {
    (65 <= b && b <= 90) || (97 <= b && b <= 122)
}

/// `0`..`9`.
pub open spec fn is_digit(b: u8) -> bool {
    48 <= b && b <= 57
}

/// A byte that may continue an identifier: a letter, a digit or `_`.
pub open spec fn is_word_byte(b: u8) -> bool {
    is_letter(b) || is_digit(b) || b == 95
}

pub open spec fn ascii_chars(s: Seq<u8>) -> Seq<char> {
    s.map_values(|b: u8| b as char)
}

/// The token that a single punctuation byte stands for, if it is one.
pub open spec fn punct_token(b: u8) -> Option<TokenView> {
    if b == 40 {
        Some(TokenView::Bracket(Bracket { right: false, ty: BracketType::Paren }))
    } else if b == 41 {
        Some(TokenView::Bracket(Bracket { right: true, ty: BracketType::Paren }))
    } else if b == 91 {
        Some(TokenView::Bracket(Bracket { right: false, ty: BracketType::Square }))
    } else if b == 93 {
        Some(TokenView::Bracket(Bracket { right: true, ty: BracketType::Square }))
    } else if b == 123 {
        Some(TokenView::Bracket(Bracket { right: false, ty: BracketType::Curly }))
    } else if b == 125 {
        Some(TokenView::Bracket(Bracket { right: true, ty: BracketType::Curly }))
    } else if b == 44 {
        Some(TokenView::Comma)
    } else if b == 59 {
        Some(TokenView::Semicolon)
    } else if b == 58 {
        Some(TokenView::Colon)
    } else {
        None
    }
}

/// End of the longest run of identifier bytes that starts at `i`.
pub open spec fn word_end(s: Seq<u8>, i: int) -> int
    decreases s.len() - i,
{
    if 0 <= i < s.len() && is_word_byte(s[i]) {
        word_end(s, i + 1)
    } else {
        i
    }
}

/// End of the longest run of digits that starts at `i`.
pub open spec fn digits_end(s: Seq<u8>, i: int) -> int
    decreases s.len() - i,
{
    if 0 <= i < s.len() && is_digit(s[i]) {
        digits_end(s, i + 1)
    } else {
        i
    }
}

/// One decimal step, saturating at `u32::MAX`.
pub open spec fn saturating_step(acc: u32, b: u8) -> u32 {
    let v = acc * 10 + (b - 48);
    if v > u32::MAX {
        u32::MAX
    } else {
        v as u32
    }
}

/// The saturated value of the digits in `s[start..end]`.
pub open spec fn digits_value(s: Seq<u8>, start: int, end: int) -> u32
    decreases end - start,
{
    if end <= start {
        0
    } else {
        saturating_step(digits_value(s, start, end - 1), s[end - 1])
    }
}

pub proof fn lemma_word_end_bounds(s: Seq<u8>, i: int)
    requires
        0 <= i <= s.len(),
    ensures
        i <= word_end(s, i) <= s.len(),
        forall|k: int| i <= k < word_end(s, i) ==> is_word_byte(#[trigger] s[k]),
        word_end(s, i) < s.len() ==> !is_word_byte(s[word_end(s, i)]),
    decreases s.len() - i,
{
    if i < s.len() && is_word_byte(s[i]) {
        lemma_word_end_bounds(s, i + 1);
    }
}

pub proof fn lemma_digits_end_bounds(s: Seq<u8>, i: int)
    requires
        0 <= i <= s.len(),
    ensures
        i <= digits_end(s, i) <= s.len(),
        forall|k: int| i <= k < digits_end(s, i) ==> is_digit(#[trigger] s[k]),
        digits_end(s, i) < s.len() ==> !is_digit(s[digits_end(s, i)]),
    decreases s.len() - i,
{
    if i < s.len() && is_digit(s[i]) {
        lemma_digits_end_bounds(s, i + 1);
    }
}

#[via_fn]
proof fn scan_from_decreases(s: Seq<u8>, i: int) {
    if 0 <= i < s.len() {
        lemma_word_end_bounds(s, i + 1);
        lemma_digits_end_bounds(s, i);
    }
}

/// The tokens of `s[i..]`: punctuation maps to one token each, a letter starts
/// an identifier, a digit starts a saturating integer, any other byte is skipped.
pub open spec fn scan_from(s: Seq<u8>, i: int) -> Seq<TokenView>
    decreases s.len() - i,
    via scan_from_decreases
{
    if i < 0 || i >= s.len() {
        Seq::empty()
    } else if is_letter(s[i]) {
        let e = word_end(s, i + 1);
        seq![TokenView::Ident(ascii_chars(s.subrange(i, e)))] + scan_from(s, e)
    } else if is_digit(s[i]) {
        let e = digits_end(s, i);
        seq![TokenView::Int(digits_value(s, i, e))] + scan_from(s, e)
    } else if punct_token(s[i]) is Some {
        seq![punct_token(s[i])->Some_0] + scan_from(s, i + 1)
    } else {
        scan_from(s, i + 1)
    }
}

/// The token sequence of a whole document.
pub open spec fn scan_spec(s: Seq<u8>) -> Seq<TokenView> {
    scan_from(s, 0)
}

/// Relies on `String::from_utf8`: bytes below 128 are valid UTF-8 and each
/// one becomes the character of the same code.
#[verifier::external_body]
fn string_from_ascii(bytes: Vec<u8>) -> (r: String)
    requires
        forall|k: int| 0 <= k < bytes@.len() ==> bytes@[k] < 128,
    ensures
        r@ == ascii_chars(bytes@),
{
    String::from_utf8(bytes).unwrap_or_default()
}

fn is_letter_byte(b: u8) -> (r: bool)
    ensures
        r == is_letter(b),
{
    (65 <= b && b <= 90) || (97 <= b && b <= 122)
}

fn is_digit_byte(b: u8) -> (r: bool)
    ensures
        r == is_digit(b),
{
    48 <= b && b <= 57
}

fn punct(b: u8) -> (r: Option<ScanToken>)
    ensures
        r is Some == punct_token(b) is Some,
        r is Some ==> r->Some_0@ == punct_token(b)->Some_0,
{
    if b == 40 {
        Some(ScanToken::Bracket(Bracket { right: false, ty: BracketType::Paren }))
    } else if b == 41 {
        Some(ScanToken::Bracket(Bracket { right: true, ty: BracketType::Paren }))
    } else if b == 91 {
        Some(ScanToken::Bracket(Bracket { right: false, ty: BracketType::Square }))
    } else if b == 93 {
        Some(ScanToken::Bracket(Bracket { right: true, ty: BracketType::Square }))
    } else if b == 123 {
        Some(ScanToken::Bracket(Bracket { right: false, ty: BracketType::Curly }))
    } else if b == 125 {
        Some(ScanToken::Bracket(Bracket { right: true, ty: BracketType::Curly }))
    } else if b == 44 {
        Some(ScanToken::Comma)
    } else if b == 59 {
        Some(ScanToken::Semicolon)
    } else if b == 58 {
        Some(ScanToken::Colon)
    } else {
        None
    }
}

/// Reads the identifier that starts with the letter at `start`, greedily over
/// letters, digits and `_`; returns it with the position just past it.
pub fn scan_string(input: &[u8], start: usize) -> (r: (String, usize))
    requires
        start < input@.len(),
        is_letter(input@[start as int]),
    ensures
        r.1 == word_end(input@, start + 1),
        r.0@ == ascii_chars(input@.subrange(start as int, r.1 as int)),
{
    let mut word: Vec<u8> = Vec::new();
    word.push(input[start]);
    let mut i: usize = start + 1;
    proof {
        lemma_word_end_bounds(input@, start + 1);
    }
    while i < input.len() && (is_letter_byte(input[i]) || is_digit_byte(input[i]) || input[i] == 95)
        invariant
            start < i <= word_end(input@, start + 1) <= input@.len(),
            word_end(input@, i as int) == word_end(input@, start + 1),
            word@ == input@.subrange(start as int, i as int),
            is_letter(input@[start as int]),
            forall|k: int| start < k < word_end(input@, start + 1) ==> is_word_byte(#[trigger] input@[k]),
        decreases input.len() - i,
    {
        word.push(input[i]);
        proof {
            lemma_word_end_bounds(input@, i + 1);
        }
        i = i + 1;
        assert(word@ =~= input@.subrange(start as int, i as int));
    }
    assert forall|k: int| 0 <= k < word@.len() implies word@[k] < 128 by {
        if k > 0 {
            assert(is_word_byte(input@[start + k]));
        }
    }
    (string_from_ascii(word), i)
}

/// Reads the integer whose first digit is at `start`, greedily over digits,
/// saturating at `u32::MAX`; returns it with the position just past it.
pub fn scan_int(input: &[u8], start: usize) -> (r: (u32, usize))
    requires
        start < input@.len(),
        is_digit(input@[start as int]),
    ensures
        r.1 == digits_end(input@, start as int),
        r.0 == digits_value(input@, start as int, r.1 as int),
{
    let mut value: u32 = 0;
    let mut i: usize = start;
    proof {
        lemma_digits_end_bounds(input@, start as int);
    }
    while i < input.len() && is_digit_byte(input[i])
        invariant
            start <= i <= digits_end(input@, start as int) <= input@.len(),
            digits_end(input@, i as int) == digits_end(input@, start as int),
            value == digits_value(input@, start as int, i as int),
        decreases input.len() - i,
    {
        proof {
            lemma_digits_end_bounds(input@, i + 1);
        }
        let d: u32 = (input[i] - 48) as u32;
        let wide: u64 = value as u64 * 10 + d as u64;
        value = if wide > u32::MAX as u64 { u32::MAX } else { wide as u32 };
        i = i + 1;
    }
    (value, i)
}

/// Splits a document into its tokens, in source order.
pub fn scan_input(input: &[u8]) -> (r: Vec<ScanToken>)
    ensures
        token_views(r@) == scan_spec(input@),
{
    let mut res: Vec<ScanToken> = Vec::new();
    let mut i: usize = 0;
    while i < input.len()
        invariant
            i <= input@.len(),
            token_views(res@) + scan_from(input@, i as int) == scan_spec(input@),
        decreases input.len() - i,
    {
        let ghost before = token_views(res@);
        let c = input[i];
        if is_letter_byte(c) {
            let (word, e) = scan_string(input, i);
            proof {
                lemma_word_end_bounds(input@, i + 1);
            }
            res.push(ScanToken::Ident(word));
            assert(token_views(res@) =~= before.push(TokenView::Ident(ascii_chars(input@.subrange(i as int, e as int)))));
            i = e;
        } else if is_digit_byte(c) {
            let (v, e) = scan_int(input, i);
            proof {
                lemma_digits_end_bounds(input@, i as int);
            }
            res.push(ScanToken::Int(v));
            assert(token_views(res@) =~= before.push(TokenView::Int(v)));
            i = e;
        } else {
            match punct(c) {
                Some(t) => {
                    res.push(t);
                    assert(token_views(res@) =~= before.push(punct_token(c)->Some_0));
                },
                None => {},
            }
            i = i + 1;
        }
        assert(token_views(res@) + scan_from(input@, i as int) =~= scan_spec(input@));
    }
    assert(token_views(res@) =~= scan_spec(input@));
    res
}

} // verus!
