//! The tokens of the surface language. At each place the longest token
//! wins, and a keyword wins over an identifier of the same length.

use vstd::prelude::*;

verus! {

/// The characters of a text.
pub fn chars_of(s: &str) -> (r: Vec<char>)
    ensures
        r@ == s@,
{
    let mut out: Vec<char> = Vec::new();
    for c in it: s.chars()
        invariant
            out@ == it.seq().take(it.index() as int),
            it.seq() == s@,
        ensures
            out@ == s@,
    {
        out.push(c);
        assert(it.seq().take(it.index() + 1) =~= it.seq().take(it.index() as int).push(c));
    }
    out
}

/// The kinds of tokens.
#[derive(Clone, Copy, Debug, PartialEq, Eq, Structural)]
pub enum Tok {
    Bang,
    NotEq,
    AndAnd,
    LParen,
    RParen,
    Star,
    Plus,
    Comma,
    Minus,
    Colon,
    Less,
    LessEq,
    Assign,
    EqEq,
    Greater,
    GreaterEq,
    Add1,
    And,
    Def,
    Else,
    False,
    If,
    In,
    IsBool,
    IsNum,
    Let,
    Print,
    Sub1,
    True,
    OrOr,
    Num,
    Id,
}

/// A token: its kind, and the characters `start..end` that it is made of.
#[derive(Clone, Copy, Debug, PartialEq, Eq, Structural)]
pub struct Token {
    pub kind: Tok,
    pub start: usize,
    pub end: usize,
}

/// White space: the blank, the ASCII control characters from tab to
/// carriage return, and the other characters that Unicode counts as white
/// space.
pub open spec fn is_space(c: char) -> bool {
    let n = c as u32;
    n == 0x20 || (0x09 <= n <= 0x0d) || n == 0x85 || n == 0xa0 || n == 0x1680 || (0x2000 <= n
        <= 0x200a) || n == 0x2028 || n == 0x2029 || n == 0x202f || n == 0x205f || n == 0x3000
}

pub open spec fn is_digit(c: char) -> bool {
    0x30 <= c as u32 <= 0x39
}

pub open spec fn is_letter(c: char) -> bool {
    (0x41 <= c as u32 <= 0x5a) || (0x61 <= c as u32 <= 0x7a)
}

/// A character that may follow the first letter of an identifier.
pub open spec fn is_word_char(c: char) -> bool {
    is_letter(c) || is_digit(c) || c == '_'
}

/// The first place at or after `i` that holds no white space.
pub open spec fn skip_spaces(s: Seq<char>, i: int) -> int
    decreases s.len() - i,
{
    if 0 <= i < s.len() && is_space(s[i]) {
        skip_spaces(s, i + 1)
    } else {
        i
    }
}

/// The end of the digits that start at `i`.
pub open spec fn digits_end(s: Seq<char>, i: int) -> int
    decreases s.len() - i,
{
    if 0 <= i < s.len() && is_digit(s[i]) {
        digits_end(s, i + 1)
    } else {
        i
    }
}

/// The end of the word characters that start at `i`.
pub open spec fn word_end(s: Seq<char>, i: int) -> int
    decreases s.len() - i,
{
    if 0 <= i < s.len() && is_word_char(s[i]) {
        word_end(s, i + 1)
    } else {
        i
    }
}

/// The kind of a word: a keyword, or an identifier.
pub open spec fn word_kind(w: Seq<char>) -> Tok {
    if w == "add1"@ {
        Tok::Add1
    } else if w == "and"@ {
        Tok::And
    } else if w == "def"@ {
        Tok::Def
    } else if w == "else"@ {
        Tok::Else
    } else if w == "false"@ {
        Tok::False
    } else if w == "if"@ {
        Tok::If
    } else if w == "in"@ {
        Tok::In
    } else if w == "isbool"@ {
        Tok::IsBool
    } else if w == "isnum"@ {
        Tok::IsNum
    } else if w == "let"@ {
        Tok::Let
    } else if w == "print"@ {
        Tok::Print
    } else if w == "sub1"@ {
        Tok::Sub1
    } else if w == "true"@ {
        Tok::True
    } else {
        Tok::Id
    }
}

/// The sign made of the two characters `c` and `d`, if they make one.
pub open spec fn sign2(c: char, d: char) -> Option<Tok> {
    if c == '!' && d == '=' {
        Some(Tok::NotEq)
    } else if c == '&' && d == '&' {
        Some(Tok::AndAnd)
    } else if c == '<' && d == '=' {
        Some(Tok::LessEq)
    } else if c == '=' && d == '=' {
        Some(Tok::EqEq)
    } else if c == '>' && d == '=' {
        Some(Tok::GreaterEq)
    } else if c == '|' && d == '|' {
        Some(Tok::OrOr)
    } else {
        None
    }
}

/// The sign made of the character `c`, if it makes one.
pub open spec fn sign1(c: char) -> Option<Tok> {
    if c == '!' {
        Some(Tok::Bang)
    } else if c == '(' {
        Some(Tok::LParen)
    } else if c == ')' {
        Some(Tok::RParen)
    } else if c == '*' {
        Some(Tok::Star)
    } else if c == '+' {
        Some(Tok::Plus)
    } else if c == ',' {
        Some(Tok::Comma)
    } else if c == '-' {
        Some(Tok::Minus)
    } else if c == ':' {
        Some(Tok::Colon)
    } else if c == '<' {
        Some(Tok::Less)
    } else if c == '=' {
        Some(Tok::Assign)
    } else if c == '>' {
        Some(Tok::Greater)
    } else {
        None
    }
}

/// The token that starts at `i`, a place before the end of the text that
/// holds no white space: the longest there is.
#[verifier::opaque]
pub open spec fn token_at(s: Seq<char>, i: int) -> Option<Token> {
    let c = s[i];
    if is_digit(c) {
        Some(Token { kind: Tok::Num, start: i as usize, end: digits_end(s, i) as usize })
    } else if (c == '+' || c == '-') && i + 1 < s.len() && is_digit(s[i + 1]) {
        Some(Token { kind: Tok::Num, start: i as usize, end: digits_end(s, i + 1) as usize })
    } else if is_letter(c) {
        let end = word_end(s, i);
        Some(Token { kind: word_kind(s.subrange(i, end)), start: i as usize, end: end as usize })
    } else if i + 1 < s.len() && sign2(c, s[i + 1]) is Some {
        Some(Token { kind: sign2(c, s[i + 1])->0, start: i as usize, end: (i + 2) as usize })
    } else {
        match sign1(c) {
            Some(kind) => Some(Token { kind, start: i as usize, end: (i + 1) as usize }),
            None => None,
        }
    }
}

/// The tokens of the text from `i` on, after those in `acc`; or the place
/// at which no token starts.
pub open spec fn lex_from(s: Seq<char>, i: int, acc: Seq<Token>) -> Result<Seq<Token>, usize>
    decreases s.len() - i,
{
    let j = skip_spaces(s, i);
    if j < 0 || j >= s.len() {
        Ok(acc)
    } else {
        match token_at(s, j) {
            None => Err(j as usize),
            Some(t) => if i < t.end <= s.len() {
                lex_from(s, t.end as int, acc.push(t))
            } else {
                Err(j as usize)
            },
        }
    }
}

/// The tokens of a text.
pub open spec fn lex(s: Seq<char>) -> Result<Seq<Token>, usize> {
    lex_from(s, 0, Seq::empty())
}

pub proof fn lemma_skip_spaces(s: Seq<char>, i: int)
    requires
        0 <= i <= s.len(),
    ensures
        i <= skip_spaces(s, i) <= s.len(),
    decreases s.len() - i,
{
    if i < s.len() && is_space(s[i]) {
        lemma_skip_spaces(s, i + 1);
    }
}

pub proof fn lemma_digits_end(s: Seq<char>, i: int)
    requires
        0 <= i <= s.len(),
    ensures
        i <= digits_end(s, i) <= s.len(),
        i < s.len() && is_digit(s[i]) ==> i < digits_end(s, i),
    decreases s.len() - i,
{
    if i < s.len() && is_digit(s[i]) {
        lemma_digits_end(s, i + 1);
    }
}

pub proof fn lemma_word_end(s: Seq<char>, i: int)
    requires
        0 <= i <= s.len(),
    ensures
        i <= word_end(s, i) <= s.len(),
        i < s.len() && is_word_char(s[i]) ==> i < word_end(s, i),
    decreases s.len() - i,
{
    if i < s.len() && is_word_char(s[i]) {
        lemma_word_end(s, i + 1);
    }
}

/// A token ends after it starts, and within the text.
pub proof fn lemma_token_at(s: Seq<char>, i: int)
    requires
        0 <= i < s.len(),
        s.len() <= usize::MAX,
    ensures
        token_at(s, i) matches Some(t) ==> t.start == i && i < t.end <= s.len(),
{
    reveal(token_at);
    lemma_digits_end(s, i);
    lemma_word_end(s, i);
    if i + 1 <= s.len() {
        lemma_digits_end(s, i + 1);
    }
}

pub fn space(c: char) -> (r: bool)
    ensures
        r == is_space(c),
{
    let n = c as u32;
    n == 0x20 || (0x09 <= n && n <= 0x0d) || n == 0x85 || n == 0xa0 || n == 0x1680 || (0x2000 <= n
        && n <= 0x200a) || n == 0x2028 || n == 0x2029 || n == 0x202f || n == 0x205f || n
        == 0x3000
}

pub fn digit(c: char) -> (r: bool)
    ensures
        r == is_digit(c),
{
    let n = c as u32;
    0x30 <= n && n <= 0x39
}

pub fn letter(c: char) -> (r: bool)
    ensures
        r == is_letter(c),
{
    let n = c as u32;
    (0x41 <= n && n <= 0x5a) || (0x61 <= n && n <= 0x7a)
}

pub fn word_char(c: char) -> (r: bool)
    ensures
        r == is_word_char(c),
{
    letter(c) || digit(c) || c == '_'
}

/// The first place at or after `i` that holds no white space.
pub fn skip_whitespace(chars: &Vec<char>, i: usize) -> (j: usize)
    requires
        i <= chars.len(),
    ensures
        j == skip_spaces(chars@, i as int),
        i <= j <= chars.len(),
{
    let mut j = i;
    while j < chars.len() && space(chars[j])
        invariant
            i <= j <= chars.len(),
            skip_spaces(chars@, i as int) == skip_spaces(chars@, j as int),
        decreases chars.len() - j,
    {
        j += 1;
    }
    j
}

/// The end of the digits that start at `i`.
pub fn scan_digits(chars: &Vec<char>, i: usize) -> (j: usize)
    requires
        i <= chars.len(),
    ensures
        j == digits_end(chars@, i as int),
        i <= j <= chars.len(),
{
    let mut j = i;
    while j < chars.len() && digit(chars[j])
        invariant
            i <= j <= chars.len(),
            digits_end(chars@, i as int) == digits_end(chars@, j as int),
        decreases chars.len() - j,
    {
        j += 1;
    }
    j
}

/// The end of the word characters that start at `i`.
pub fn scan_word(chars: &Vec<char>, i: usize) -> (j: usize)
    requires
        i <= chars.len(),
    ensures
        j == word_end(chars@, i as int),
        i <= j <= chars.len(),
{
    let mut j = i;
    while j < chars.len() && word_char(chars[j])
        invariant
            i <= j <= chars.len(),
            word_end(chars@, i as int) == word_end(chars@, j as int),
        decreases chars.len() - j,
    {
        j += 1;
    }
    j
}

/// Whether the characters `start..end` spell `word`.
pub fn spells(chars: &Vec<char>, start: usize, end: usize, word: &str) -> (r: bool)
    requires
        start <= end <= chars.len(),
    ensures
        r == (chars@.subrange(start as int, end as int) == word@),
{
    let n = word.unicode_len();
    if end - start != n {
        return false;
    }
    let ghost w = chars@.subrange(start as int, end as int);
    let mut k: usize = 0;
    while k < n
        invariant
            k <= n,
            n == word@.len(),
            end - start == n,
            start <= end <= chars.len(),
            w == chars@.subrange(start as int, end as int),
            forall|j: int| 0 <= j < k ==> w[j] == word@[j],
        decreases n - k,
    {
        if chars[start + k] != word.get_char(k) {
            assert(w[k as int] != word@[k as int]);
            return false;
        }
        k += 1;
    }
    assert(w =~= word@);
    true
}

/// The kind of the word at `start..end`.
pub fn classify_word(chars: &Vec<char>, start: usize, end: usize) -> (kind: Tok)
    requires
        start <= end <= chars.len(),
    ensures
        kind == word_kind(chars@.subrange(start as int, end as int)),
{
    if spells(chars, start, end, "add1") {
        Tok::Add1
    } else if spells(chars, start, end, "and") {
        Tok::And
    } else if spells(chars, start, end, "def") {
        Tok::Def
    } else if spells(chars, start, end, "else") {
        Tok::Else
    } else if spells(chars, start, end, "false") {
        Tok::False
    } else if spells(chars, start, end, "if") {
        Tok::If
    } else if spells(chars, start, end, "in") {
        Tok::In
    } else if spells(chars, start, end, "isbool") {
        Tok::IsBool
    } else if spells(chars, start, end, "isnum") {
        Tok::IsNum
    } else if spells(chars, start, end, "let") {
        Tok::Let
    } else if spells(chars, start, end, "print") {
        Tok::Print
    } else if spells(chars, start, end, "sub1") {
        Tok::Sub1
    } else if spells(chars, start, end, "true") {
        Tok::True
    } else {
        Tok::Id
    }
}

/// The sign of two characters.
pub fn two_char_sign(c: char, d: char) -> (r: Option<Tok>)
    ensures
        r == sign2(c, d),
{
    if c == '!' && d == '=' {
        Some(Tok::NotEq)
    } else if c == '&' && d == '&' {
        Some(Tok::AndAnd)
    } else if c == '<' && d == '=' {
        Some(Tok::LessEq)
    } else if c == '=' && d == '=' {
        Some(Tok::EqEq)
    } else if c == '>' && d == '=' {
        Some(Tok::GreaterEq)
    } else if c == '|' && d == '|' {
        Some(Tok::OrOr)
    } else {
        None
    }
}

/// The sign of one character.
pub fn one_char_sign(c: char) -> (r: Option<Tok>)
    ensures
        r == sign1(c),
{
    if c == '!' {
        Some(Tok::Bang)
    } else if c == '(' {
        Some(Tok::LParen)
    } else if c == ')' {
        Some(Tok::RParen)
    } else if c == '*' {
        Some(Tok::Star)
    } else if c == '+' {
        Some(Tok::Plus)
    } else if c == ',' {
        Some(Tok::Comma)
    } else if c == '-' {
        Some(Tok::Minus)
    } else if c == ':' {
        Some(Tok::Colon)
    } else if c == '<' {
        Some(Tok::Less)
    } else if c == '=' {
        Some(Tok::Assign)
    } else if c == '>' {
        Some(Tok::Greater)
    } else {
        None
    }
}

/// The token that starts at `i`.
pub fn next_token(chars: &Vec<char>, i: usize) -> (r: Option<Token>)
    requires
        i < chars.len(),
    ensures
        r == token_at(chars@, i as int),
        r matches Some(t) ==> t.start == i && i < t.end <= chars.len(),
{
    proof {
        reveal(token_at);
        lemma_token_at(chars@, i as int);
    }
    let c = chars[i];
    if digit(c) {
        Some(Token { kind: Tok::Num, start: i, end: scan_digits(chars, i) })
    } else if (c == '+' || c == '-') && i + 1 < chars.len() && digit(chars[i + 1]) {
        Some(Token { kind: Tok::Num, start: i, end: scan_digits(chars, i + 1) })
    } else if letter(c) {
        let end = scan_word(chars, i);
        Some(Token { kind: classify_word(chars, i, end), start: i, end })
    } else {
        if i + 1 < chars.len() {
            match two_char_sign(c, chars[i + 1]) {
                Some(kind) => {
                    return Some(Token { kind, start: i, end: i + 2 });
                },
                None => {},
            }
        }
        match one_char_sign(c) {
            Some(kind) => Some(Token { kind, start: i, end: i + 1 }),
            None => None,
        }
    }
}

/// The tokens of a text, or the place at which no token starts.
pub fn tokenize(chars: &Vec<char>) -> (r: Result<Vec<Token>, usize>)
    ensures
        match (r, lex(chars@)) {
            (Ok(ts), Ok(want)) => ts@ == want,
            (Err(at), Err(want)) => at == want,
            _ => false,
        },
        r matches Ok(ts) ==> tokens_in(ts@, chars@.len()),
{
    let mut tokens: Vec<Token> = Vec::new();
    let mut i: usize = 0;
    loop
        invariant
            i <= chars.len(),
            lex(chars@) == lex_from(chars@, i as int, tokens@),
            tokens_in(tokens@, chars@.len()),
            forall|k: int| 0 <= k < tokens@.len() ==> (#[trigger] tokens@[k]).end <= i,
        decreases chars.len() - i,
    {
        let j = skip_whitespace(chars, i);
        if j >= chars.len() {
            return Ok(tokens);
        }
        match next_token(chars, j) {
            None => {
                return Err(j);
            },
            Some(t) => {
                tokens.push(t);
                i = t.end;
            },
        }
    }
}

/// Whether the tokens lie in a text of `len` characters, one after the
/// other, and none is empty.
pub open spec fn tokens_in(ts: Seq<Token>, len: nat) -> bool {
    &&& forall|k: int| 0 <= k < ts.len() ==> (#[trigger] ts[k]).start < ts[k].end <= len
    &&& forall|a: int, b: int|
        0 <= a < b < ts.len() ==> (#[trigger] ts[a]).end <= (#[trigger] ts[b]).start
}

} // verus!
