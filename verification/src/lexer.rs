//! The lexer: turns source text into tokens with byte spans.
use crate::text::{
    byte_len, byte_offset, chars_of, lemma_offset_mono, lemma_offset_step, lemma_offset_zero,
    on_char_boundary, str_slice, utf8_width,
};
use vstd::string::StringSliceAdditionalSpecFns;
use vstd::prelude::*;

verus! {

/// The kind of a token.
#[derive(Debug, Clone, Copy, PartialEq, Eq, Structural)]
pub enum Tok {
    Number,
    String,
    Identifier,
    Plus,
    Minus,
    Asterisk,
    Slash,
    Percent,
    Bang,
    Ampersand,
    Caret,
    Pipe,
    And,
    Or,
    Equal,
    EqualEqual,
    BangEqual,
    Less,
    LessEqual,
    LessLess,
    Greater,
    GreaterEqual,
    GreaterGreater,
    LParen,
    RParen,
    LBrace,
    RBrace,
    LBracket,
    RBracket,
    Dot,
    DotDot,
    DotDotDot,
    Comma,
    Colon,
    Semicolon,
    Unknown,
    Fun,
    Return,
    Var,
    If,
    Else,
    While,
    Break,
    Continue,
    Eof,
}

impl Tok {
    /// How a token of this kind is named in messages.
    /// How a token of kind `t` is named in messages.
    pub open spec fn name(t: Tok) -> Seq<char> {
        match t {
            Tok::Number => "number literal"@,
            Tok::String => "string literal"@,
            Tok::Identifier => "identifier"@,
            Tok::Plus => "`+`"@,
            Tok::Minus => "`-`"@,
            Tok::Asterisk => "`*`"@,
            Tok::Slash => "`/`"@,
            Tok::Percent => "`%`"@,
            Tok::Bang => "`!`"@,
            Tok::Ampersand => "`&`"@,
            Tok::Caret => "`^`"@,
            Tok::Pipe => "`|`"@,
            Tok::And => "`and`"@,
            Tok::Or => "`or`"@,
            Tok::Equal => "`=`"@,
            Tok::EqualEqual => "`==`"@,
            Tok::BangEqual => "`!=`"@,
            Tok::Less => "`<`"@,
            Tok::LessEqual => "`<=`"@,
            Tok::LessLess => "`<<`"@,
            Tok::Greater => "`>`"@,
            Tok::GreaterEqual => "`>=`"@,
            Tok::GreaterGreater => "`>>`"@,
            Tok::LParen => "`(`"@,
            Tok::RParen => "`)`"@,
            Tok::LBrace => "`{`"@,
            Tok::RBrace => "`}`"@,
            Tok::LBracket => "`[`"@,
            Tok::RBracket => "`]`"@,
            Tok::Dot => "`.`"@,
            Tok::DotDot => "`..`"@,
            Tok::DotDotDot => "`...`"@,
            Tok::Comma => "`,`"@,
            Tok::Colon => "`:`"@,
            Tok::Semicolon => "`;`"@,
            Tok::Fun => "`fun`"@,
            Tok::Return => "`return`"@,
            Tok::Var => "`var`"@,
            Tok::If => "`if`"@,
            Tok::Else => "`else`"@,
            Tok::While => "`while`"@,
            Tok::Break => "`break`"@,
            Tok::Continue => "`continue`"@,
            Tok::Unknown => "unknown character"@,
            Tok::Eof => "<EOF>"@,
        }
    }

    pub fn as_str(&self) -> (r: &'static str)
        ensures
            r@ == Tok::name(*self),
    {
        match self {
            Tok::Number => "number literal",
            Tok::String => "string literal",
            Tok::Identifier => "identifier",
            Tok::Plus => "`+`",
            Tok::Minus => "`-`",
            Tok::Asterisk => "`*`",
            Tok::Slash => "`/`",
            Tok::Percent => "`%`",
            Tok::Bang => "`!`",
            Tok::Ampersand => "`&`",
            Tok::Caret => "`^`",
            Tok::Pipe => "`|`",
            Tok::And => "`and`",
            Tok::Or => "`or`",
            Tok::Equal => "`=`",
            Tok::EqualEqual => "`==`",
            Tok::BangEqual => "`!=`",
            Tok::Less => "`<`",
            Tok::LessEqual => "`<=`",
            Tok::LessLess => "`<<`",
            Tok::Greater => "`>`",
            Tok::GreaterEqual => "`>=`",
            Tok::GreaterGreater => "`>>`",
            Tok::LParen => "`(`",
            Tok::RParen => "`)`",
            Tok::LBrace => "`{`",
            Tok::RBrace => "`}`",
            Tok::LBracket => "`[`",
            Tok::RBracket => "`]`",
            Tok::Dot => "`.`",
            Tok::DotDot => "`..`",
            Tok::DotDotDot => "`...`",
            Tok::Comma => "`,`",
            Tok::Colon => "`:`",
            Tok::Semicolon => "`;`",
            Tok::Fun => "`fun`",
            Tok::Return => "`return`",
            Tok::Var => "`var`",
            Tok::If => "`if`",
            Tok::Else => "`else`",
            Tok::While => "`while`",
            Tok::Break => "`break`",
            Tok::Continue => "`continue`",
            Tok::Unknown => "unknown character",
            Tok::Eof => "<EOF>",
        }
    }
}

/// A range of byte offsets `start..end` in the source text.
#[derive(Debug, Clone, Copy, PartialEq, Eq, PartialOrd, Ord, Hash, Structural)]
pub struct Span {
    pub start: u32,
    pub end: u32,
}

impl Span {
    /// From the start of `self` to the end of `other`.
    pub fn join(&self, other: &Span) -> (r: Span)
        ensures
            r == (Span { start: self.start, end: other.end }),
    {
        Span { start: self.start, end: other.end }
    }

    /// From the end of `self` to the start of `other`.
    pub fn between(&self, other: &Span) -> (r: Span)
        ensures
            r == (Span { start: self.end, end: other.start }),
    {
        Span { start: self.end, end: other.start }
    }

    /// The number of bytes; the span must not end before it starts.
    pub fn len(&self) -> (r: u32)
        requires
            self.start <= self.end,
        ensures
            r == self.end - self.start,
    {
        self.end - self.start
    }

    /// Whether the span covers no byte.
    pub fn is_empty(&self) -> (r: bool)
        ensures
            r == (self.start == self.end),
    {
        self.start == self.end
    }
}

/// A token: its kind and where it stands in the source.
#[derive(Debug, Clone, Copy, PartialEq, Eq, Structural)]
pub struct Token {
    pub kind: Tok,
    pub span: Span,
}

/// `c` is white space in the sense of Unicode (the property `White_Space`).
pub open spec fn spec_is_whitespace(c: char) -> bool {
    let v = c as u32;
    ||| 0x9 <= v <= 0xD
    ||| v == 0x20
    ||| v == 0x85
    ||| v == 0xA0
    ||| v == 0x1680
    ||| 0x2000 <= v <= 0x200A
    ||| v == 0x2028
    ||| v == 0x2029
    ||| v == 0x202F
    ||| v == 0x205F
    ||| v == 0x3000
}

/// `c` is an ASCII decimal digit.
pub open spec fn spec_is_digit(c: char) -> bool {
    '0' <= c <= '9'
}

/// `c` may begin a word: an ASCII letter or `_`.
pub open spec fn spec_is_word_start(c: char) -> bool {
    c == '_' || ('a' <= c <= 'z') || ('A' <= c <= 'Z')
}

/// `c` may continue a word: an ASCII letter, digit or `_`.
pub open spec fn spec_is_word_char(c: char) -> bool {
    spec_is_word_start(c) || spec_is_digit(c)
}

/// Whether `c` is white space (Unicode `White_Space`).
pub fn is_whitespace(c: char) -> (r: bool)
    ensures
        r == spec_is_whitespace(c),
{
    let v = c as u32;
    (0x9 <= v && v <= 0xD) || v == 0x20 || v == 0x85 || v == 0xA0 || v == 0x1680 || (0x2000 <= v
        && v <= 0x200A) || v == 0x2028 || v == 0x2029 || v == 0x202F || v == 0x205F || v == 0x3000
}

fn is_digit(c: char) -> (r: bool)
    ensures
        r == spec_is_digit(c),
{
    '0' <= c && c <= '9'
}

fn is_word_start(c: char) -> (r: bool)
    ensures
        r == spec_is_word_start(c),
{
    c == '_' || ('a' <= c && c <= 'z') || ('A' <= c && c <= 'Z')
}

fn is_word_char(c: char) -> (r: bool)
    ensures
        r == spec_is_word_char(c),
{
    is_word_start(c) || is_digit(c)
}

/// The position after the run of white space that starts at `i`.
pub open spec fn ws_end(s: Seq<char>, i: int) -> int
    decreases s.len() - i,
{
    if 0 <= i < s.len() && spec_is_whitespace(s[i]) {
        ws_end(s, i + 1)
    } else {
        i
    }
}

/// The position after the run of word characters that starts at `i`.
pub open spec fn word_end(s: Seq<char>, i: int) -> int
    decreases s.len() - i,
{
    if 0 <= i < s.len() && spec_is_word_char(s[i]) {
        word_end(s, i + 1)
    } else {
        i
    }
}

/// The position after the end of the comment line whose text starts at `i`: past the
/// newline, or at the end of the text.
pub open spec fn comment_end(s: Seq<char>, i: int) -> int
    decreases s.len() - i,
{
    if 0 <= i < s.len() {
        if s[i] == '\n' {
            i + 1
        } else {
            comment_end(s, i + 1)
        }
    } else {
        i
    }
}

/// The position after the closing quote of the string literal whose text starts at `i`,
/// or the end of the text; `escaped` when the previous character was a backslash.
pub open spec fn string_end(s: Seq<char>, i: int, escaped: bool) -> int
    decreases s.len() - i,
{
    if 0 <= i < s.len() {
        if escaped {
            string_end(s, i + 1, false)
        } else if s[i] == '\\' {
            string_end(s, i + 1, true)
        } else if s[i] == '"' {
            i + 1
        } else {
            string_end(s, i + 1, false)
        }
    } else {
        i
    }
}

/// The character at `i` is `c`.
pub open spec fn char_at_is(s: Seq<char>, i: int, c: char) -> bool {
    0 <= i < s.len() && s[i] == c
}

/// The kind of a word: a keyword, or an identifier.
pub open spec fn keyword_tok(w: Seq<char>) -> Tok {
    if w == seq!['f', 'u', 'n'] {
        Tok::Fun
    } else if w == seq!['r', 'e', 't', 'u', 'r', 'n'] {
        Tok::Return
    } else if w == seq!['v', 'a', 'r'] {
        Tok::Var
    } else if w == seq!['i', 'f'] {
        Tok::If
    } else if w == seq!['e', 'l', 's', 'e'] {
        Tok::Else
    } else if w == seq!['w', 'h', 'i', 'l', 'e'] {
        Tok::While
    } else if w == seq!['b', 'r', 'e', 'a', 'k'] {
        Tok::Break
    } else if w == seq!['c', 'o', 'n', 't', 'i', 'n', 'u', 'e'] {
        Tok::Continue
    } else if w == seq!['a', 'n', 'd'] {
        Tok::And
    } else if w == seq!['o', 'r'] {
        Tok::Or
    } else {
        Tok::Identifier
    }
}

/// The kind of a single-character token, if `c` forms one on its own.
pub open spec fn single_char_tok(c: char) -> Option<Tok> {
    if c == '+' {
        Some(Tok::Plus)
    } else if c == '-' {
        Some(Tok::Minus)
    } else if c == '*' {
        Some(Tok::Asterisk)
    } else if c == '/' {
        Some(Tok::Slash)
    } else if c == '%' {
        Some(Tok::Percent)
    } else if c == '&' {
        Some(Tok::Ampersand)
    } else if c == '^' {
        Some(Tok::Caret)
    } else if c == '|' {
        Some(Tok::Pipe)
    } else if c == '(' {
        Some(Tok::LParen)
    } else if c == ')' {
        Some(Tok::RParen)
    } else if c == '{' {
        Some(Tok::LBrace)
    } else if c == '}' {
        Some(Tok::RBrace)
    } else if c == '[' {
        Some(Tok::LBracket)
    } else if c == ']' {
        Some(Tok::RBracket)
    } else if c == ',' {
        Some(Tok::Comma)
    } else if c == ':' {
        Some(Tok::Colon)
    } else if c == ';' {
        Some(Tok::Semicolon)
    } else {
        None
    }
}

/// The token that starts at `i`, a position holding neither white space nor `#`:
/// its kind and the position after it.
pub open spec fn scan_token(s: Seq<char>, i: int) -> (Tok, int) {
    let c = s[i];
    if spec_is_digit(c) {
        (Tok::Number, word_end(s, i + 1))
    } else if c == '"' {
        (Tok::String, string_end(s, i + 1, false))
    } else if single_char_tok(c) is Some {
        (single_char_tok(c)->0, i + 1)
    } else if c == '!' {
        if char_at_is(s, i + 1, '=') {
            (Tok::BangEqual, i + 2)
        } else {
            (Tok::Bang, i + 1)
        }
    } else if c == '=' {
        if char_at_is(s, i + 1, '=') {
            (Tok::EqualEqual, i + 2)
        } else {
            (Tok::Equal, i + 1)
        }
    } else if c == '<' {
        if char_at_is(s, i + 1, '=') {
            (Tok::LessEqual, i + 2)
        } else if char_at_is(s, i + 1, '<') {
            (Tok::LessLess, i + 2)
        } else {
            (Tok::Less, i + 1)
        }
    } else if c == '>' {
        if char_at_is(s, i + 1, '=') {
            (Tok::GreaterEqual, i + 2)
        } else if char_at_is(s, i + 1, '>') {
            (Tok::GreaterGreater, i + 2)
        } else {
            (Tok::Greater, i + 1)
        }
    } else if c == '.' {
        if char_at_is(s, i + 1, '.') {
            if char_at_is(s, i + 2, '.') {
                (Tok::DotDotDot, i + 3)
            } else {
                (Tok::DotDot, i + 2)
            }
        } else {
            (Tok::Dot, i + 1)
        }
    } else if spec_is_word_start(c) {
        let e = word_end(s, i + 1);
        (keyword_tok(s.subrange(i, e)), e)
    } else {
        (Tok::Unknown, i + 1)
    }
}

pub proof fn lemma_ws_end(s: Seq<char>, i: int)
    ensures
        i <= ws_end(s, i),
        0 <= i <= s.len() ==> ws_end(s, i) <= s.len(),
    decreases s.len() - i,
{
    if 0 <= i < s.len() && spec_is_whitespace(s[i]) {
        lemma_ws_end(s, i + 1);
    }
}

pub proof fn lemma_word_end(s: Seq<char>, i: int)
    ensures
        i <= word_end(s, i),
        0 <= i <= s.len() ==> word_end(s, i) <= s.len(),
    decreases s.len() - i,
{
    if 0 <= i < s.len() && spec_is_word_char(s[i]) {
        lemma_word_end(s, i + 1);
    }
}

pub proof fn lemma_comment_end(s: Seq<char>, i: int)
    ensures
        i <= comment_end(s, i),
        0 <= i <= s.len() ==> comment_end(s, i) <= s.len(),
    decreases s.len() - i,
{
    if 0 <= i < s.len() && s[i] != '\n' {
        lemma_comment_end(s, i + 1);
    }
}

pub proof fn lemma_string_end(s: Seq<char>, i: int, escaped: bool)
    ensures
        i <= string_end(s, i, escaped),
        0 <= i <= s.len() ==> string_end(s, i, escaped) <= s.len(),
    decreases s.len() - i,
{
    if 0 <= i < s.len() {
        if escaped {
            lemma_string_end(s, i + 1, false);
        } else if s[i] == '\\' {
            lemma_string_end(s, i + 1, true);
        } else if s[i] != '"' {
            lemma_string_end(s, i + 1, false);
        }
    }
}

/// The token scanned at `i` ends after `i`, inside the text.
pub proof fn lemma_scan_token(s: Seq<char>, i: int)
    requires
        0 <= i < s.len(),
    ensures
        i < scan_token(s, i).1 <= s.len(),
{
    lemma_word_end(s, i + 1);
    lemma_string_end(s, i + 1, false);
}

/// The next token at or after position `i`, white space and comments skipped:
/// its kind, the position where it starts, and the position after it.
pub open spec fn lex(s: Seq<char>, i: int) -> (Tok, int, int)
    decreases s.len() - i,
{
    if 0 <= i < s.len() {
        if spec_is_whitespace(s[i]) {
            proof {
                lemma_ws_end(s, i + 1);
            }
            lex(s, ws_end(s, i + 1))
        } else if s[i] == '#' {
            proof {
                lemma_comment_end(s, i + 1);
            }
            lex(s, comment_end(s, i + 1))
        } else {
            let (t, e) = scan_token(s, i);
            (t, i, e)
        }
    } else {
        (Tok::Eof, i, i)
    }
}

/// Once the end of the text is reached, lexing goes on giving `Eof`, with an empty
/// span at the end of the text.
pub proof fn law_eof_repeats(s: Seq<char>, i: int)
    requires
        0 <= i <= s.len(),
        lex(s, i).0 == Tok::Eof,
    ensures
        lex(s, i).1 == s.len(),
        lex(s, i).2 == s.len(),
        lex(s, lex(s, i).2) == (Tok::Eof, s.len() as int, s.len() as int),
{
    lemma_lex(s, i);
}

/// The next token lies between the starting position and the end of the text; only
/// the end of the text gives `Eof`, and any other token is not empty.
pub proof fn lemma_lex(s: Seq<char>, i: int)
    requires
        0 <= i <= s.len(),
    ensures
        i <= lex(s, i).1 <= lex(s, i).2 <= s.len(),
        lex(s, i).0 == Tok::Eof <==> lex(s, i).1 == s.len(),
        lex(s, i).0 == Tok::Eof ==> lex(s, i).2 == s.len(),
        lex(s, i).0 != Tok::Eof ==> lex(s, i).1 < lex(s, i).2,
    decreases s.len() - i,
{
    if i < s.len() {
        if spec_is_whitespace(s[i]) {
            lemma_ws_end(s, i + 1);
            lemma_lex(s, ws_end(s, i + 1));
        } else if s[i] == '#' {
            lemma_comment_end(s, i + 1);
            lemma_lex(s, comment_end(s, i + 1));
        } else {
            lemma_scan_token(s, i);
            let c = s[i];
            if spec_is_word_start(c) && !spec_is_digit(c) && c != '"' && single_char_tok(c) is None {
                let e = word_end(s, i + 1);
                assert(keyword_tok(s.subrange(i, e)) != Tok::Eof);
            }
        }
    }
}

/// Position `k` of `s` holds white space, or lies in a comment that starts at or
/// after `lo`: a `#` at or before `k` with no newline from it up to `k`.
pub open spec fn in_gap(s: Seq<char>, lo: int, k: int) -> bool {
    ||| spec_is_whitespace(s[k])
    ||| exists|p: int|
        lo <= p <= k && s[p] == '#' && forall|q: int| p <= q <= k ==> #[trigger] s[q] != '\n'
}

proof fn lemma_ws_run(s: Seq<char>, i: int)
    requires
        0 <= i,
    ensures
        forall|k: int| i <= k < ws_end(s, i) ==> spec_is_whitespace(#[trigger] s[k]),
    decreases s.len() - i,
{
    if 0 <= i < s.len() && spec_is_whitespace(s[i]) {
        lemma_ws_run(s, i + 1);
    }
}

proof fn lemma_comment_run(s: Seq<char>, i: int)
    requires
        0 <= i,
    ensures
        forall|k: int|
            i <= k < comment_end(s, i) ==> s[k] == '\n' || forall|q: int|
                i <= q <= k ==> #[trigger] s[q] != '\n',
    decreases s.len() - i,
{
    if 0 <= i < s.len() && s[i] != '\n' {
        lemma_comment_run(s, i + 1);
    }
}

/// Between the position where lexing starts and the start of the token it gives,
/// the text holds only white space and comments.
pub proof fn law_gaps_hold_only_space_and_comments(s: Seq<char>, i: int)
    requires
        0 <= i <= s.len(),
    ensures
        forall|k: int| i <= k < lex(s, i).1 ==> #[trigger] in_gap(s, i, k),
    decreases s.len() - i,
{
    if i < s.len() {
        if spec_is_whitespace(s[i]) {
            let j = ws_end(s, i + 1);
            lemma_ws_end(s, i + 1);
            lemma_ws_run(s, i + 1);
            law_gaps_hold_only_space_and_comments(s, j);
            assert forall|k: int| i <= k < lex(s, i).1 implies #[trigger] in_gap(s, i, k) by {
                if k >= j && !spec_is_whitespace(s[k]) {
                    assert(in_gap(s, j, k));
                    let p = choose|p: int|
                        j <= p <= k && s[p] == '#' && forall|q: int|
                            p <= q <= k ==> #[trigger] s[q] != '\n';
                    assert(i <= p);
                }
            }
        } else if s[i] == '#' {
            let j = comment_end(s, i + 1);
            lemma_comment_end(s, i + 1);
            lemma_comment_run(s, i + 1);
            law_gaps_hold_only_space_and_comments(s, j);
            assert forall|k: int| i <= k < lex(s, i).1 implies #[trigger] in_gap(s, i, k) by {
                if k >= j {
                    if !spec_is_whitespace(s[k]) {
                        assert(in_gap(s, j, k));
                        let p = choose|p: int|
                            j <= p <= k && s[p] == '#' && forall|q: int|
                                p <= q <= k ==> #[trigger] s[q] != '\n';
                        assert(i <= p);
                    }
                } else if k > i && s[k] != '\n' {
                    assert forall|q: int| i <= q <= k implies #[trigger] s[q] != '\n' by {
                        if q > i {
                            assert(i + 1 <= q <= k);
                        }
                    }
                }
            }
        }
    }
}

/// A character with the Unicode `White_Space` property, listed one by one.
pub open spec fn unicode_white_space(c: char) -> bool {
    ||| c == '\t'
    ||| c == '\n'
    ||| c == '\u{0B}'
    ||| c == '\u{0C}'
    ||| c == '\r'
    ||| c == ' '
    ||| c == '\u{85}'
    ||| c == '\u{A0}'
    ||| c == '\u{1680}'
    ||| c == '\u{2000}'
    ||| c == '\u{2001}'
    ||| c == '\u{2002}'
    ||| c == '\u{2003}'
    ||| c == '\u{2004}'
    ||| c == '\u{2005}'
    ||| c == '\u{2006}'
    ||| c == '\u{2007}'
    ||| c == '\u{2008}'
    ||| c == '\u{2009}'
    ||| c == '\u{200A}'
    ||| c == '\u{2028}'
    ||| c == '\u{2029}'
    ||| c == '\u{202F}'
    ||| c == '\u{205F}'
    ||| c == '\u{3000}'
}

proof fn lemma_whitespace_is_unicode(c: char)
    ensures
        spec_is_whitespace(c) <==> unicode_white_space(c),
{
}

proof fn lemma_token_start(s: Seq<char>, i: int)
    requires
        0 <= i <= s.len(),
    ensures
        lex(s, i).0 != Tok::Eof ==> lex(s, i).1 < s.len() && !spec_is_whitespace(s[lex(s, i).1]),
    decreases s.len() - i,
{
    lemma_lex(s, i);
    if i < s.len() {
        if spec_is_whitespace(s[i]) {
            lemma_ws_end(s, i + 1);
            lemma_token_start(s, ws_end(s, i + 1));
        } else if s[i] == '#' {
            lemma_comment_end(s, i + 1);
            lemma_token_start(s, comment_end(s, i + 1));
        }
    }
}

/// White space, as Unicode has it (U+000D included), is skipped and nothing else
/// is: lexing from a white-space character gives a token that starts after it,
/// lexing from any other character but `#` gives one that starts there, and no
/// token starts at white space.
pub proof fn law_white_space_is_skipped(s: Seq<char>, i: int)
    requires
        0 <= i <= s.len(),
    ensures
        i < s.len() && unicode_white_space(s[i]) ==> i < lex(s, i).1,
        i < s.len() && !unicode_white_space(s[i]) && s[i] != '#' ==> lex(s, i).1 == i,
        lex(s, i).0 != Tok::Eof ==> !unicode_white_space(s[lex(s, i).1]),
{
    lemma_lex(s, i);
    lemma_token_start(s, i);
    if i < s.len() {
        lemma_whitespace_is_unicode(s[i]);
        if spec_is_whitespace(s[i]) {
            lemma_ws_end(s, i + 1);
            lemma_lex(s, ws_end(s, i + 1));
        }
    }
    if lex(s, i).0 != Tok::Eof {
        lemma_whitespace_is_unicode(s[lex(s, i).1]);
    }
}

/// A token as the lexer gives it: the kind, with the span turned into byte offsets.
pub open spec fn token_at(s: Seq<char>, i: int) -> Token {
    let (t, st, en) = lex(s, i);
    Token { kind: t, span: Span { start: byte_offset(s, st) as u32, end: byte_offset(s, en) as u32 } }
}

/// A lexer over a source text that holds at most `u32::MAX` bytes.
#[derive(Debug, Clone)]
pub struct Lexer<'input> {
    input: &'input str,
    chars: Vec<char>,
    pos: usize,
    loc: u32,
}

impl<'input> Lexer<'input> {
    /// The source text.
    pub closed spec fn input(&self) -> &'input str {
        self.input
    }

    /// The characters of the source text.
    pub open spec fn text(&self) -> Seq<char> {
        self.input()@
    }

    /// The source text.
    pub fn input_str(&self) -> (r: &'input str)
        ensures
            r == self.input(),
    {
        self.input
    }

    /// The position (in characters) from which the lexer goes on.
    pub closed spec fn pos(&self) -> int {
        self.pos as int
    }

    pub closed spec fn wf(&self) -> bool {
        &&& self.chars@ == self.input@
        &&& self.pos <= self.chars@.len()
        &&& self.loc == byte_offset(self.chars@, self.pos as int)
        &&& byte_len(self.chars@) <= u32::MAX
    }

    /// The token that [`Self::advance`] gives next.
    pub open spec fn next_token(&self) -> Token {
        token_at(self.text(), self.pos())
    }

    /// The position after the token that [`Self::advance`] gives next.
    pub open spec fn next_end(&self) -> int {
        lex(self.text(), self.pos()).2
    }

    pub proof fn lemma_wf(&self)
        requires
            self.wf(),
        ensures
            0 <= self.pos() <= self.text().len(),
            byte_len(self.text()) <= u32::MAX,
    {
    }

    /// A lexer at the start of `input`, which must hold at most `u32::MAX` bytes.
    pub fn new(input: &'input str) -> (r: Self)
        requires
            input.spec_bytes().len() <= u32::MAX,
        ensures
            r.wf(),
            r.input() == input,
            r.pos() == 0,
    {
        let chars = chars_of(input);
        proof {
            lemma_offset_zero(chars@);
        }
        Lexer { input, chars, pos: 0, loc: 0 }
    }

    /// The source text of `span`, whose ends must lie between characters.
    pub fn slice(&self, span: Span) -> (r: &'input str)
        requires
            self.wf(),
            span.start <= span.end,
            on_char_boundary(self.text(), span.start as int),
            on_char_boundary(self.text(), span.end as int),
        ensures
            r.spec_bytes() == self.input().spec_bytes().subrange(
                span.start as int,
                span.end as int,
            ),
            forall|i: int, j: int|
                0 <= i <= j <= self.text().len() && byte_offset(self.text(), i) == span.start
                    && byte_offset(self.text(), j) == span.end ==> r@ == self.text().subrange(i, j),
    {
        str_slice(self.input, span.start as usize, span.end as usize)
    }

    /// Moves past one character.
    fn bump(&mut self)
        requires
            old(self).wf(),
            old(self).pos < old(self).chars@.len(),
        ensures
            final(self).wf(),
            final(self).input == old(self).input,
            final(self).pos == old(self).pos + 1,
    {
        let len = self.chars.len();
        let ch = self.chars[self.pos];
        let w = utf8_width(ch);
        proof {
            lemma_offset_step(self.chars@, self.pos as int);
            lemma_offset_mono(self.chars@, self.pos as int + 1, self.chars@.len() as int);
        }
        self.pos = self.pos + 1;
        self.loc = self.loc + w;
    }

    fn peek_char(&self) -> (r: Option<char>)
        requires
            self.wf(),
        ensures
            self.pos < self.chars@.len() ==> r == Some(self.chars@[self.pos as int]),
            self.pos >= self.chars@.len() ==> r is None,
    {
        if self.pos < self.chars.len() {
            Some(self.chars[self.pos])
        } else {
            None
        }
    }

    /// Moves past the next character if it is `ch`.
    fn match_char(&mut self, ch: char) -> (r: bool)
        requires
            old(self).wf(),
        ensures
            final(self).wf(),
            final(self).input == old(self).input,
            r == char_at_is(old(self).chars@, old(self).pos as int, ch),
            final(self).pos == old(self).pos + if r { 1int } else { 0int },
    {
        if self.pos < self.chars.len() && self.chars[self.pos] == ch {
            self.bump();
            true
        } else {
            false
        }
    }

    fn eat_whitespace(&mut self)
        requires
            old(self).wf(),
        ensures
            final(self).wf(),
            final(self).input == old(self).input,
            final(self).pos == ws_end(old(self).chars@, old(self).pos as int),
    {
        while self.pos < self.chars.len() && is_whitespace(self.chars[self.pos])
            invariant
                self.wf(),
                self.input == old(self).input,
                old(self).pos <= self.pos,
                ws_end(self.chars@, self.pos as int) == ws_end(
                    old(self).chars@,
                    old(self).pos as int,
                ),
            decreases self.chars@.len() - self.pos,
        {
            self.bump();
        }
    }

    fn eat_word(&mut self)
        requires
            old(self).wf(),
        ensures
            final(self).wf(),
            final(self).input == old(self).input,
            final(self).pos == word_end(old(self).chars@, old(self).pos as int),
    {
        while self.pos < self.chars.len() && is_word_char(self.chars[self.pos])
            invariant
                self.wf(),
                self.input == old(self).input,
                word_end(self.chars@, self.pos as int) == word_end(
                    old(self).chars@,
                    old(self).pos as int,
                ),
            decreases self.chars@.len() - self.pos,
        {
            self.bump();
        }
    }

    fn eat_comment(&mut self)
        requires
            old(self).wf(),
        ensures
            final(self).wf(),
            final(self).input == old(self).input,
            final(self).pos == comment_end(old(self).chars@, old(self).pos as int),
    {
        while self.pos < self.chars.len()
            invariant
                self.wf(),
                self.input == old(self).input,
                comment_end(self.chars@, self.pos as int) == comment_end(
                    old(self).chars@,
                    old(self).pos as int,
                ),
            decreases self.chars@.len() - self.pos,
        {
            let ch = self.chars[self.pos];
            self.bump();
            if ch == '\n' {
                return ;
            }
        }
    }

    fn eat_string(&mut self)
        requires
            old(self).wf(),
        ensures
            final(self).wf(),
            final(self).input == old(self).input,
            final(self).pos == string_end(old(self).chars@, old(self).pos as int, false),
    {
        let mut escaped = false;
        while self.pos < self.chars.len()
            invariant
                self.wf(),
                self.input == old(self).input,
                string_end(self.chars@, self.pos as int, escaped) == string_end(
                    old(self).chars@,
                    old(self).pos as int,
                    false,
                ),
            decreases self.chars@.len() - self.pos,
        {
            let ch = self.chars[self.pos];
            self.bump();
            if escaped {
                escaped = false;
            } else if ch == '\\' {
                escaped = true;
            } else if ch == '"' {
                return ;
            }
        }
    }

    fn word_is(&self, start: usize, end: usize, w: &[char]) -> (r: bool)
        requires
            self.wf(),
            start <= end <= self.chars@.len(),
        ensures
            r == (self.chars@.subrange(start as int, end as int) == w@),
    {
        if end - start != w.len() {
            return false;
        }
        let mut k: usize = 0;
        while k < w.len()
            invariant
                self.wf(),
                start <= end <= self.chars@.len(),
                end - start == w@.len(),
                0 <= k <= w@.len(),
                forall|m: int| 0 <= m < k ==> self.chars@[start + m] == w@[m],
            decreases w.len() - k,
        {
            if self.chars[start + k] != w[k] {
                return false;
            }
            k = k + 1;
        }
        assert(self.chars@.subrange(start as int, end as int) =~= w@);
        true
    }

    fn keyword(&self, start: usize, end: usize) -> (r: Tok)
        requires
            self.wf(),
            start <= end <= self.chars@.len(),
        ensures
            r == keyword_tok(self.chars@.subrange(start as int, end as int)),
    {
        if self.word_is(start, end, &['f', 'u', 'n']) {
            Tok::Fun
        } else if self.word_is(start, end, &['r', 'e', 't', 'u', 'r', 'n']) {
            Tok::Return
        } else if self.word_is(start, end, &['v', 'a', 'r']) {
            Tok::Var
        } else if self.word_is(start, end, &['i', 'f']) {
            Tok::If
        } else if self.word_is(start, end, &['e', 'l', 's', 'e']) {
            Tok::Else
        } else if self.word_is(start, end, &['w', 'h', 'i', 'l', 'e']) {
            Tok::While
        } else if self.word_is(start, end, &['b', 'r', 'e', 'a', 'k']) {
            Tok::Break
        } else if self.word_is(start, end, &['c', 'o', 'n', 't', 'i', 'n', 'u', 'e']) {
            Tok::Continue
        } else if self.word_is(start, end, &['a', 'n', 'd']) {
            Tok::And
        } else if self.word_is(start, end, &['o', 'r']) {
            Tok::Or
        } else {
            Tok::Identifier
        }
    }

    /// Gives the next token, skipping white space and `#` comments; at the end of the
    /// text, an empty `Eof` token (again on each later call).
    pub fn advance(&mut self) -> (r: Token)
        requires
            old(self).wf(),
        ensures
            final(self).wf(),
            final(self).input() == old(self).input(),
            r == old(self).next_token(),
            final(self).pos() == old(self).next_end(),
    {
        loop
            invariant
                self.wf(),
                old(self).wf(),
                self.input == old(self).input,
                lex(self.chars@, self.pos as int) == lex(old(self).chars@, old(self).pos as int),
            decreases self.chars@.len() - self.pos,
        {
            let start = self.loc;
            let start_pos = self.pos;
            let ghost s = self.chars@;
            if self.pos >= self.chars.len() {
                proof {
                    assert(lex(s, start_pos as int) == (Tok::Eof, start_pos as int, start_pos as int));
                    assert(old(self).text() == old(self).chars@);
                    assert(lex(old(self).text(), old(self).pos()) == (Tok::Eof, start_pos as int, start_pos as int));
                    assert(byte_offset(s, start_pos as int) == start);
                    assert(token_at(s, start_pos as int).span.start == start);
                    assert(old(self).next_token() == Token {
                        kind: Tok::Eof,
                        span: Span { start, end: start },
                    });
                }
                return Token { kind: Tok::Eof, span: Span { start, end: start } };
            }
            let ch = self.chars[self.pos];
            self.bump();
            if is_whitespace(ch) {
                proof {
                    lemma_ws_end(s, start_pos as int + 1);
                }
                self.eat_whitespace();
                continue ;
            }
            if ch == '#' {
                proof {
                    lemma_comment_end(s, start_pos as int + 1);
                }
                self.eat_comment();
                continue ;
            }
            let tok = if is_digit(ch) {
                self.eat_word();
                Tok::Number
            } else if ch == '"' {
                self.eat_string();
                Tok::String
            } else if ch == '+' {
                Tok::Plus
            } else if ch == '-' {
                Tok::Minus
            } else if ch == '*' {
                Tok::Asterisk
            } else if ch == '/' {
                Tok::Slash
            } else if ch == '%' {
                Tok::Percent
            } else if ch == '&' {
                Tok::Ampersand
            } else if ch == '^' {
                Tok::Caret
            } else if ch == '|' {
                Tok::Pipe
            } else if ch == '(' {
                Tok::LParen
            } else if ch == ')' {
                Tok::RParen
            } else if ch == '{' {
                Tok::LBrace
            } else if ch == '}' {
                Tok::RBrace
            } else if ch == '[' {
                Tok::LBracket
            } else if ch == ']' {
                Tok::RBracket
            } else if ch == ',' {
                Tok::Comma
            } else if ch == ':' {
                Tok::Colon
            } else if ch == ';' {
                Tok::Semicolon
            } else if ch == '!' {
                if self.match_char('=') {
                    Tok::BangEqual
                } else {
                    Tok::Bang
                }
            } else if ch == '=' {
                if self.match_char('=') {
                    Tok::EqualEqual
                } else {
                    Tok::Equal
                }
            } else if ch == '<' {
                if self.match_char('=') {
                    Tok::LessEqual
                } else if self.match_char('<') {
                    Tok::LessLess
                } else {
                    Tok::Less
                }
            } else if ch == '>' {
                if self.match_char('=') {
                    Tok::GreaterEqual
                } else if self.match_char('>') {
                    Tok::GreaterGreater
                } else {
                    Tok::Greater
                }
            } else if ch == '.' {
                if self.match_char('.') {
                    if self.match_char('.') {
                        Tok::DotDotDot
                    } else {
                        Tok::DotDot
                    }
                } else {
                    Tok::Dot
                }
            } else if is_word_start(ch) {
                proof {
                    lemma_word_end(s, start_pos as int + 1);
                }
                self.eat_word();
                self.keyword(start_pos, self.pos)
            } else {
                Tok::Unknown
            };
            let end = self.loc;
            proof {
                assert(scan_token(s, start_pos as int) == (tok, self.pos as int));
                assert(lex(s, start_pos as int) == (tok, start_pos as int, self.pos as int));
                assert(old(self).next_token() == Token { kind: tok, span: Span { start, end } });
            }
            return Token { kind: tok, span: Span { start, end } };
        }
    }
}

/// A [`Lexer`] that also keeps the previous token and can look at the next one.
#[derive(Clone)]
pub struct LexerWindow<'input> {
    lexer: Lexer<'input>,
    peek: Option<Token>,
    prev: Option<Token>,
    /// The position from which the next token is lexed.
    cursor: Ghost<int>,
    /// The position after the last token that [`Self::advance`] gave, or `0`.
    consumed: Ghost<int>,
}

impl<'input> LexerWindow<'input> {
    pub closed spec fn wf(&self) -> bool {
        &&& self.lexer.wf()
        &&& 0 <= self.consumed@ <= self.cursor@ <= self.lexer.text().len()
        &&& self.peek matches Some(t) ==> {
            &&& t == token_at(self.lexer.text(), self.cursor@)
            &&& self.lexer.pos() == lex(self.lexer.text(), self.cursor@).2
        }
        &&& self.peek is None ==> self.lexer.pos() == self.cursor@
    }

    /// The source text.
    pub closed spec fn input(&self) -> &'input str {
        self.lexer.input()
    }

    /// The source text.
    pub fn input_str(&self) -> (r: &'input str)
        ensures
            r == self.input(),
    {
        self.lexer.input_str()
    }

    /// The characters of the source text.
    pub open spec fn text(&self) -> Seq<char> {
        self.input()@
    }

    /// The position from which the next token is lexed.
    pub closed spec fn cursor(&self) -> int {
        self.cursor@
    }

    /// The position after the last token that [`Self::advance`] gave, or `0`.
    pub closed spec fn consumed(&self) -> int {
        self.consumed@
    }

    /// The token that the next [`Self::advance`] gives.
    pub open spec fn next_token(&self) -> Token {
        token_at(self.text(), self.cursor())
    }

    /// The position after the token that the next [`Self::advance`] gives.
    pub open spec fn after_next(&self) -> int {
        lex(self.text(), self.cursor()).2
    }

    /// The token that the last [`Self::advance`] gave, if any.
    pub closed spec fn prev_token(&self) -> Option<Token> {
        self.prev
    }

    pub proof fn lemma_wf(&self)
        requires
            self.wf(),
        ensures
            0 <= self.consumed() <= self.cursor() <= self.text().len(),
            byte_len(self.text()) <= u32::MAX,
    {
    }

    /// A window at the start of `input`, which must hold at most `u32::MAX` bytes.
    pub fn new(input: &'input str) -> (r: Self)
        requires
            input.spec_bytes().len() <= u32::MAX,
        ensures
            r.wf(),
            r.input() == input,
            r.cursor() == 0,
            r.consumed() == 0,
            r.prev_token() is None,
    {
        let lexer = Lexer::new(input);
        proof {
            vstd::utf8::encode_utf8_decode_utf8(input@);
        }
        LexerWindow { lexer, peek: None, prev: None, cursor: Ghost(0), consumed: Ghost(0) }
    }

    /// The source text of `span`, whose ends must lie between characters.
    pub fn slice(&self, span: Span) -> (r: &'input str)
        requires
            self.wf(),
            span.start <= span.end,
            on_char_boundary(self.text(), span.start as int),
            on_char_boundary(self.text(), span.end as int),
        ensures
            r.spec_bytes() == self.input().spec_bytes().subrange(
                span.start as int,
                span.end as int,
            ),
            forall|i: int, j: int|
                0 <= i <= j <= self.text().len() && byte_offset(self.text(), i) == span.start
                    && byte_offset(self.text(), j) == span.end ==> r@ == self.text().subrange(i, j),
    {
        proof {
            assert(self.text() == self.lexer.text());
        }
        self.lexer.slice(span)
    }

    /// The next token, without moving past it.
    pub fn peek(&mut self) -> (r: Token)
        requires
            old(self).wf(),
        ensures
            final(self).wf(),
            final(self).input() == old(self).input(),
            final(self).cursor() == old(self).cursor(),
            final(self).consumed() == old(self).consumed(),
            final(self).prev_token() == old(self).prev_token(),
            r == old(self).next_token(),
    {
        match self.peek {
            Some(t) => t,
            None => {
                let t = self.lexer.advance();
                self.peek = Some(t);
                t
            },
        }
    }

    /// The token that the last [`Self::advance`] gave; there must have been one.
    pub fn prev(&self) -> (r: Token)
        requires
            self.prev_token() is Some,
        ensures
            r == self.prev_token()->0,
    {
        match self.prev {
            Some(t) => t,
            None => {
                proof {
                    assert(false);
                }
                Token { kind: Tok::Eof, span: Span { start: 0, end: 0 } }
            },
        }
    }

    /// Gives the next token and moves past it.
    pub fn advance(&mut self) -> (r: Token)
        requires
            old(self).wf(),
        ensures
            final(self).wf(),
            final(self).input() == old(self).input(),
            r == old(self).next_token(),
            final(self).prev_token() == Some(r),
            final(self).cursor() == old(self).after_next(),
            final(self).consumed() == old(self).after_next(),
    {
        proof {
            lemma_lex(self.lexer.text(), self.cursor@);
        }
        let curr = match self.peek {
            Some(t) => {
                self.peek = None;
                t
            },
            None => self.lexer.advance(),
        };
        self.prev = Some(curr);
        self.cursor = Ghost(lex(self.lexer.text(), self.cursor@).2);
        self.consumed = self.cursor;
        curr
    }

    /// Moves past the next token if it has kind `tok`, giving its span; otherwise gives
    /// the next token and stays.
    pub fn match_(&mut self, tok: Tok) -> (r: Result<Span, Token>)
        requires
            old(self).wf(),
        ensures
            final(self).wf(),
            final(self).input() == old(self).input(),
            old(self).next_token().kind == tok ==> {
                &&& r == Ok::<Span, Token>(old(self).next_token().span)
                &&& final(self).prev_token() == Some(old(self).next_token())
                &&& final(self).cursor() == old(self).after_next()
                &&& final(self).consumed() == old(self).after_next()
            },
            old(self).next_token().kind != tok ==> {
                &&& r == Err::<Span, Token>(old(self).next_token())
                &&& final(self).cursor() == old(self).cursor()
                &&& final(self).consumed() == old(self).consumed()
                &&& final(self).prev_token() == old(self).prev_token()
            },
    {
        if self.peek().kind == tok {
            Ok(self.advance().span)
        } else {
            Err(self.peek())
        }
    }
}

} // verus!
