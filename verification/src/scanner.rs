//! The scanner: source bytes to tokens, one at a time.
use vstd::prelude::*;

verus! {

/// The kinds of token.
#[derive(Clone, Copy, Debug, PartialEq, Eq, Structural)]
pub enum TokenType {
    LeftParen,
    RightParen,
    Dot,
    Minus,
    Plus,
    Semicolon,
    Slash,
    Star,
    Caret,
    Bang,
    Equal,
    EqualEqual,
    Greater,
    Less,
    Identifier,
    String,
    Number,
    False,
    Nil,
    Print,
    True,
    Var,
    /// A string literal without its closing quote on the same line.
    UnterminatedString,
    /// A byte that starts no token.
    UnexpectedCharacter,
    /// The end of the source.
    Eof,
}

/// A token: its kind and the bytes of the source it spans.
#[derive(Clone, Copy, Debug, PartialEq, Eq, Structural)]
pub struct Token {
    pub kind: TokenType,
    pub start: usize,
    pub length: usize,
}

/// `0` to `9`.
pub open spec fn is_digit(c: u8) -> bool {
    48u8 <= c <= 57u8
}

/// A letter of either case, or `_`.
pub open spec fn is_alpha(c: u8) -> bool {
    (97u8 <= c <= 122u8) || (65u8 <= c <= 90u8) || c == 95u8
}

/// Space, carriage return, tab or line feed.
pub open spec fn is_space(c: u8) -> bool {
    c == 32u8 || c == 13u8 || c == 9u8 || c == 10u8
}

/// The end of the line that holds `at`: the next line feed, or the end of
/// the source.
pub open spec fn line_end(source: Seq<u8>, at: int) -> int
    decreases source.len() - at,
{
    if at < 0 || at >= source.len() {
        source.len() as int
    } else if source[at] == 10u8 {
        at
    } else {
        line_end(source, at + 1)
    }
}

/// The first position at or after `at` that is neither white space nor
/// inside a `//` comment.
pub open spec fn skip_blank(source: Seq<u8>, at: int) -> int
    decreases source.len() - at,
{
    if at < 0 || at >= source.len() {
        source.len() as int
    } else if is_space(source[at]) {
        skip_blank(source, at + 1)
    } else if source[at] == 47u8 && at + 1 < source.len() && source[at + 1] == 47u8 {
        let end = line_end(source, at + 2);
        if at < end <= source.len() {
            skip_blank(source, end)
        } else {
            at
        }
    } else {
        at
    }
}

/// The end of the run of digits that starts at `at`.
pub open spec fn digits_end(source: Seq<u8>, at: int) -> int
    decreases source.len() - at,
{
    if at < 0 || at >= source.len() {
        source.len() as int
    } else if is_digit(source[at]) {
        digits_end(source, at + 1)
    } else {
        at
    }
}

/// The end of the run of letters, digits and underscores that starts at
/// `at`.
pub open spec fn name_end(source: Seq<u8>, at: int) -> int
    decreases source.len() - at,
{
    if at < 0 || at >= source.len() {
        source.len() as int
    } else if is_alpha(source[at]) || is_digit(source[at]) {
        name_end(source, at + 1)
    } else {
        at
    }
}

/// Where the closing quote of a string stands whose content starts at
/// `at`. A backslash takes the byte behind it into the string, whatever it
/// is; a line feed without one, or the end of the source, ends the search
/// without a result.
pub open spec fn string_end(source: Seq<u8>, at: int) -> Option<int>
    decreases source.len() - at,
{
    if at < 0 || at >= source.len() {
        None
    } else if source[at] == 34u8 {
        Some(at)
    } else if source[at] == 10u8 {
        None
    } else if source[at] == 92u8 {
        if at + 1 < source.len() {
            string_end(source, at + 2)
        } else {
            None
        }
    } else {
        string_end(source, at + 1)
    }
}

/// The end of the number that starts at `at`: a run of digits, and, if a
/// point and a digit follow, the point and the run of digits behind it.
pub open spec fn number_end(source: Seq<u8>, at: int) -> int {
    let whole = digits_end(source, at);
    if whole + 1 < source.len() && source[whole] == 46u8 && is_digit(source[whole + 1]) {
        digits_end(source, whole + 1)
    } else {
        whole
    }
}

/// The kind of a name: one of the reserved words, or an identifier.
pub open spec fn keyword_of(word: Seq<u8>) -> TokenType {
    // "false", "nil", "print", "true", "var"
    if word == seq![102u8, 97u8, 108u8, 115u8, 101u8] {
        TokenType::False
    } else if word == seq![110u8, 105u8, 108u8] {
        TokenType::Nil
    } else if word == seq![112u8, 114u8, 105u8, 110u8, 116u8] {
        TokenType::Print
    } else if word == seq![116u8, 114u8, 117u8, 101u8] {
        TokenType::True
    } else if word == seq![118u8, 97u8, 114u8] {
        TokenType::Var
    } else {
        TokenType::Identifier
    }
}

/// The kind of a token of one byte, if the byte is one of
/// `( ) . - + ; / * ^ ! > <`.
pub open spec fn punctuation(c: u8) -> Option<TokenType> {
    if c == 40u8 {
        Some(TokenType::LeftParen)
    } else if c == 41u8 {
        Some(TokenType::RightParen)
    } else if c == 46u8 {
        Some(TokenType::Dot)
    } else if c == 45u8 {
        Some(TokenType::Minus)
    } else if c == 43u8 {
        Some(TokenType::Plus)
    } else if c == 59u8 {
        Some(TokenType::Semicolon)
    } else if c == 47u8 {
        Some(TokenType::Slash)
    } else if c == 42u8 {
        Some(TokenType::Star)
    } else if c == 94u8 {
        Some(TokenType::Caret)
    } else if c == 33u8 {
        Some(TokenType::Bang)
    } else if c == 62u8 {
        Some(TokenType::Greater)
    } else if c == 60u8 {
        Some(TokenType::Less)
    } else {
        None
    }
}

/// The token that starts at `at`, a position that `skip_blank` has settled
/// on.
pub open spec fn token_at(source: Seq<u8>, at: int) -> Token {
    if at < 0 || at >= source.len() {
        Token { kind: TokenType::Eof, start: source.len() as usize, length: 0 }
    } else {
        let c = source[at];
        let start = at as usize;
        if is_digit(c) {
            Token { kind: TokenType::Number, start, length: (number_end(source, at) - at) as usize }
        } else if is_alpha(c) {
            let end = name_end(source, at);
            Token {
                kind: keyword_of(source.subrange(at, end)),
                start,
                length: (end - at) as usize,
            }
        } else if c == 34u8 {
            match string_end(source, at + 1) {
                Some(end) => Token {
                    kind: TokenType::String,
                    start,
                    length: (end + 1 - at) as usize,
                },
                None => Token {
                    kind: TokenType::UnterminatedString,
                    start,
                    length: (source.len() - at) as usize,
                },
            }
        } else if c == 61u8 {
            if at + 1 < source.len() && source[at + 1] == 61u8 {
                Token { kind: TokenType::EqualEqual, start, length: 2 }
            } else {
                Token { kind: TokenType::Equal, start, length: 1 }
            }
        } else {
            match punctuation(c) {
                Some(kind) => Token { kind, start, length: 1 },
                None => Token { kind: TokenType::UnexpectedCharacter, start, length: 1 },
            }
        }
    }
}

/// The next token at or after `at`, and the position behind it.
pub open spec fn scan(source: Seq<u8>, at: int) -> (Token, int) {
    let token = token_at(source, skip_blank(source, at));
    (token, token.start + token.length)
}

/// The ends that the scanner searches for lie between the start of the
/// search and the end of the source.
pub proof fn lemma_ends(source: Seq<u8>, at: int)
    requires
        0 <= at <= source.len(),
    ensures
        at <= line_end(source, at) <= source.len(),
        at <= skip_blank(source, at) <= source.len(),
        at <= digits_end(source, at) <= source.len(),
        at <= name_end(source, at) <= source.len(),
        at <= number_end(source, at) <= source.len(),
        string_end(source, at) matches Some(end) ==> at <= end < source.len(),
    decreases source.len() - at,
{
    if at < source.len() {
        lemma_ends(source, at + 1);
        if at + 1 < source.len() {
            lemma_ends(source, at + 2);
        }
        if source[at] == 47u8 && at + 1 < source.len() && source[at + 1] == 47u8 {
            let end = line_end(source, at + 2);
            lemma_ends(source, end);
        }
    }
    let whole = digits_end(source, at);
    if whole + 1 < source.len() {
        lemma_ends(source, whole + 1);
    }
}

/// A token lies inside the source, and every token but the end of the
/// source spans at least one byte: scanning always moves on, so a source
/// has finitely many tokens.
pub proof fn lemma_scan_moves(source: Seq<u8>, at: int)
    requires
        0 <= at <= source.len() <= usize::MAX,
    ensures
        at <= scan(source, at).0.start,
        scan(source, at).1 == scan(source, at).0.start + scan(source, at).0.length,
        scan(source, at).1 <= source.len(),
        scan(source, at).0.kind != TokenType::Eof ==> scan(source, at).0.length > 0,
        scan(source, at).0.kind == TokenType::Eof ==> scan(source, at).1 == source.len(),
        scan(source, at).0.kind == TokenType::String ==> scan(source, at).0.length >= 2,
{
    lemma_ends(source, at);
    let p = skip_blank(source, at);
    if p < source.len() {
        lemma_ends(source, p);
        lemma_ends(source, p + 1);
        let c = source[p];
        if is_digit(c) {
            let whole = digits_end(source, p);
            assert(whole > p);
            if whole + 1 < source.len() {
                lemma_ends(source, whole + 1);
            }
        } else if is_alpha(c) {
            assert(name_end(source, p) > p);
            lemma_keyword_not_eof(source.subrange(p, name_end(source, p)));
        } else if c != 34u8 && c != 61u8 {
            lemma_punctuation_not_eof(c);
        }
    }
}

/// A name is a reserved word or an identifier.
pub proof fn lemma_keyword_not_eof(word: Seq<u8>)
    ensures
        keyword_of(word) != TokenType::Eof,
        keyword_of(word) != TokenType::String,
{
}

/// Punctuation is neither the end of the source nor a string.
pub proof fn lemma_punctuation_not_eof(c: u8)
    ensures
        punctuation(c) != Some(TokenType::Eof),
        punctuation(c) != Some(TokenType::String),
{
}

/// Once the end of the source has been returned, it is returned again.
pub proof fn lemma_eof_repeats(source: Seq<u8>, at: int)
    requires
        0 <= at <= source.len() <= usize::MAX,
        scan(source, at).0.kind == TokenType::Eof,
    ensures
        scan(source, scan(source, at).1) == scan(source, at),
{
    lemma_scan_moves(source, at);
    lemma_ends(source, at);
    let p = skip_blank(source, at);
    if p < source.len() {
        lemma_ends(source, p);
        lemma_ends(source, p + 1);
        let c = source[p];
        if is_alpha(c) {
            lemma_keyword_not_eof(source.subrange(p, name_end(source, p)));
        } else if !is_digit(c) && c != 34u8 && c != 61u8 {
            lemma_punctuation_not_eof(c);
        }
    }
}

/// A scanner over a source text.
#[derive(Debug)]
pub struct Scanner {
    source: Vec<u8>,
    current: usize,
}

impl Scanner {
    /// The source text.
    pub closed spec fn source(&self) -> Seq<u8> {
        self.source@
    }

    /// The position behind the last token returned.
    pub closed spec fn position(&self) -> int {
        self.current as int
    }

    /// The invariant: the position lies inside the source.
    pub closed spec fn wf(&self) -> bool {
        self.current <= self.source.len()
    }

    pub fn new(source: Vec<u8>) -> (s: Scanner)
        ensures
            s.wf(),
            s.source() == source@,
            s.position() == 0,
    {
        Scanner { source, current: 0 }
    }

    /// The bytes of the source.
    pub fn bytes(&self) -> (r: &Vec<u8>)
        ensures
            r@ == self.source(),
    {
        &self.source
    }

    /// Moves past white space and comments.
    fn skip_whitespace(&mut self)
        requires
            old(self).wf(),
        ensures
            final(self).wf(),
            final(self).source() == old(self).source(),
            final(self).position() == skip_blank(old(self).source(), old(self).position()),
    {
        loop
            invariant
                self.wf(),
                self.source() == old(self).source(),
                skip_blank(self.source(), self.position()) == skip_blank(
                    old(self).source(),
                    old(self).position(),
                ),
            decreases self.source.len() - self.current,
        {
            if self.current >= self.source.len() {
                return;
            }
            let c = self.source[self.current];
            if c == 32u8 || c == 13u8 || c == 9u8 || c == 10u8 {
                self.current += 1;
            } else if c == 47u8 && self.current + 1 < self.source.len() && self.source[self.current
                + 1] == 47u8 {
                let ghost at = self.current as int;
                let mut end = self.current + 2;
                while end < self.source.len() && self.source[end] != 10u8
                    invariant
                        at + 2 <= end <= self.source.len(),
                        line_end(self.source@, end as int) == line_end(self.source@, at + 2),
                    decreases self.source.len() - end,
                {
                    end += 1;
                }
                self.current = end;
            } else {
                return;
            }
        }
    }

    /// The end of the run of digits that starts at `at`.
    fn digits(&self, at: usize) -> (end: usize)
        requires
            at <= self.source().len(),
        ensures
            end == digits_end(self.source(), at as int),
            at <= end <= self.source().len(),
    {
        let mut end = at;
        while end < self.source.len() && self.source[end] >= 48u8 && self.source[end] <= 57u8
            invariant
                at <= end <= self.source.len(),
                digits_end(self.source@, end as int) == digits_end(self.source@, at as int),
            decreases self.source.len() - end,
        {
            end += 1;
        }
        end
    }

    /// The kind of the name that spans `start..end`.
    fn name_kind(&self, start: usize, end: usize) -> (kind: TokenType)
        requires
            start <= end <= self.source().len(),
        ensures
            kind == keyword_of(self.source().subrange(start as int, end as int)),
    {
        let s = &self.source;
        let ghost word = self.source@.subrange(start as int, end as int);
        let n = end - start;
        proof {
            let f = seq![102u8, 97u8, 108u8, 115u8, 101u8];
            let nl = seq![110u8, 105u8, 108u8];
            let p = seq![112u8, 114u8, 105u8, 110u8, 116u8];
            let t = seq![116u8, 114u8, 117u8, 101u8];
            let v = seq![118u8, 97u8, 114u8];
            assert(f.len() == 5 && f[0] == 102u8 && f[1] == 97u8 && f[2] == 108u8 && f[3] == 115u8
                && f[4] == 101u8);
            assert(nl.len() == 3 && nl[0] == 110u8 && nl[1] == 105u8 && nl[2] == 108u8);
            assert(p.len() == 5 && p[0] == 112u8 && p[1] == 114u8 && p[2] == 105u8 && p[3] == 110u8
                && p[4] == 116u8);
            assert(t.len() == 4 && t[0] == 116u8 && t[1] == 114u8 && t[2] == 117u8 && t[3] == 101u8);
            assert(v.len() == 3 && v[0] == 118u8 && v[1] == 97u8 && v[2] == 114u8);
            assert(word.len() == n);
            assert(forall|i: int| 0 <= i < n ==> word[i] == s@[start + i]);
        }
        if n == 5 && s[start] == 102u8 && s[start + 1] == 97u8 && s[start + 2] == 108u8 && s[start
            + 3] == 115u8 && s[start + 4] == 101u8 {
            assert(word =~= seq![102u8, 97u8, 108u8, 115u8, 101u8]);
            TokenType::False
        } else if n == 3 && s[start] == 110u8 && s[start + 1] == 105u8 && s[start + 2] == 108u8 {
            assert(word =~= seq![110u8, 105u8, 108u8]);
            TokenType::Nil
        } else if n == 5 && s[start] == 112u8 && s[start + 1] == 114u8 && s[start + 2] == 105u8
            && s[start + 3] == 110u8 && s[start + 4] == 116u8 {
            assert(word =~= seq![112u8, 114u8, 105u8, 110u8, 116u8]);
            TokenType::Print
        } else if n == 4 && s[start] == 116u8 && s[start + 1] == 114u8 && s[start + 2] == 117u8
            && s[start + 3] == 101u8 {
            assert(word =~= seq![116u8, 114u8, 117u8, 101u8]);
            TokenType::True
        } else if n == 3 && s[start] == 118u8 && s[start + 1] == 97u8 && s[start + 2] == 114u8 {
            assert(word =~= seq![118u8, 97u8, 114u8]);
            TokenType::Var
        } else {
            TokenType::Identifier
        }
    }

    /// The token of one byte that `c` is, if it is one.
    fn punctuation_kind(c: u8) -> (r: Option<TokenType>)
        ensures
            r == punctuation(c),
    {
        if c == 40u8 {
            Some(TokenType::LeftParen)
        } else if c == 41u8 {
            Some(TokenType::RightParen)
        } else if c == 46u8 {
            Some(TokenType::Dot)
        } else if c == 45u8 {
            Some(TokenType::Minus)
        } else if c == 43u8 {
            Some(TokenType::Plus)
        } else if c == 59u8 {
            Some(TokenType::Semicolon)
        } else if c == 47u8 {
            Some(TokenType::Slash)
        } else if c == 42u8 {
            Some(TokenType::Star)
        } else if c == 94u8 {
            Some(TokenType::Caret)
        } else if c == 33u8 {
            Some(TokenType::Bang)
        } else if c == 62u8 {
            Some(TokenType::Greater)
        } else if c == 60u8 {
            Some(TokenType::Less)
        } else {
            None
        }
    }

    /// Where the string ends whose content starts at `at`.
    fn string(&self, at: usize) -> (r: Option<usize>)
        requires
            at <= self.source().len(),
        ensures
            r matches Some(end) ==> string_end(self.source(), at as int) == Some(end as int) && at
                <= end < self.source().len(),
            r.is_none() ==> string_end(self.source(), at as int).is_none(),
    {
        let mut end = at;
        loop
            invariant
                at <= end <= self.source.len(),
                string_end(self.source@, end as int) == string_end(self.source@, at as int),
            decreases self.source.len() - end,
        {
            if end >= self.source.len() {
                return None;
            }
            let c = self.source[end];
            if c == 34u8 {
                return Some(end);
            } else if c == 10u8 {
                return None;
            } else if c == 92u8 {
                if end + 1 < self.source.len() {
                    end += 2;
                } else {
                    return None;
                }
            } else {
                end += 1;
            }
        }
    }

    /// Returns the next token and moves behind it. At the end of the
    /// source it returns `Eof`, again and again.
    pub fn next_token(&mut self) -> (token: Token)
        requires
            old(self).wf(),
        ensures
            final(self).wf(),
            final(self).source() == old(self).source(),
            (token, final(self).position()) == scan(old(self).source(), old(self).position()),
    {
        self.skip_whitespace();
        let start = self.current;
        proof {
            lemma_ends(self.source@, start as int);
            if start < self.source.len() {
                lemma_ends(self.source@, start + 1);
            }
        }
        if start >= self.source.len() {
            return Token { kind: TokenType::Eof, start, length: 0 };
        }
        let c = self.source[start];
        let token = if c >= 48u8 && c <= 57u8 {
            let whole = self.digits(start);
            let end = if whole < self.source.len() && whole + 1 < self.source.len()
                && self.source[whole] == 46u8 && self.source[whole + 1] >= 48u8 && self.source[whole
                + 1] <= 57u8 {
                self.digits(whole + 1)
            } else {
                whole
            };
            Token { kind: TokenType::Number, start, length: end - start }
        } else if (c >= 97u8 && c <= 122u8) || (c >= 65u8 && c <= 90u8) || c == 95u8 {
            let mut end = start;
            while end < self.source.len() && ((self.source[end] >= 97u8 && self.source[end] <= 122u8)
                || (self.source[end] >= 65u8 && self.source[end] <= 90u8) || self.source[end]
                == 95u8 || (self.source[end] >= 48u8 && self.source[end] <= 57u8))
                invariant
                    start <= end <= self.source.len(),
                    name_end(self.source@, end as int) == name_end(self.source@, start as int),
                decreases self.source.len() - end,
            {
                end += 1;
            }
            Token { kind: self.name_kind(start, end), start, length: end - start }
        } else if c == 34u8 {
            match self.string(start + 1) {
                Some(end) => Token { kind: TokenType::String, start, length: end + 1 - start },
                None => Token {
                    kind: TokenType::UnterminatedString,
                    start,
                    length: self.source.len() - start,
                },
            }
        } else if c == 61u8 {
            if start + 1 < self.source.len() && self.source[start + 1] == 61u8 {
                Token { kind: TokenType::EqualEqual, start, length: 2 }
            } else {
                Token { kind: TokenType::Equal, start, length: 1 }
            }
        } else {
            match Self::punctuation_kind(c) {
                Some(kind) => Token { kind, start, length: 1 },
                None => Token { kind: TokenType::UnexpectedCharacter, start, length: 1 },
            }
        };
        self.current = start + token.length;
        token
    }
}

} // verus!
