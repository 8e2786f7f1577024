use vstd::prelude::*;

verus! {

/// One structural unit of the input: a brace, a separator, or a literal
/// character (escapes are already resolved).
#[derive(Debug, Clone, Copy, PartialEq, Eq, Structural)]
pub enum Token {
    OpenBrace,
    CloseBrace,
    Comma,
    Char(char),
}

/// The token that an unescaped character stands for.
pub open spec fn token_of(c: char) -> Token {
    if c == '{' {
        Token::OpenBrace
    } else if c == '}' {
        Token::CloseBrace
    } else if c == ',' {
        Token::Comma
    } else {
        Token::Char(c)
    }
}

/// The token of a character taken literally.
pub open spec fn literal(c: char) -> Token {
    Token::Char(c)
}

/// The tokens of a character sequence. A backslash makes the character after
/// it a `Char`, whatever it is; a backslash with nothing after it is dropped.
pub open spec fn tokenize(s: Seq<char>) -> Seq<Token>
    decreases s.len(),
{
    if s.len() == 0 {
        seq![]
    } else if s[0] == '\\' {
        if s.len() == 1 {
            seq![]
        } else {
            seq![literal(s[1])] + tokenize(s.subrange(2, s.len() as int))
        }
    } else {
        seq![token_of(s[0])] + tokenize(s.subrange(1, s.len() as int))
    }
}

/// One `Char` token per character.
pub open spec fn char_tokens(s: Seq<char>) -> Seq<Token>
    decreases s.len(),
{
    if s.len() == 0 {
        seq![]
    } else {
        seq![literal(s[0])] + char_tokens(s.drop_first())
    }
}

/// Reads the tokens of a string one at a time.
pub struct TokenIter {
    chars: Vec<char>,
    pos: usize,
}

impl View for TokenIter {
    type V = Seq<char>;

    /// The characters not read yet.
    closed spec fn view(&self) -> Seq<char> {
        self.chars@.subrange(self.pos as int, self.chars@.len() as int)
    }
}

impl TokenIter {
    #[verifier::type_invariant]
    spec fn well_formed(&self) -> bool {
        self.pos <= self.chars.len()
    }

    pub fn new(buffer: &str) -> (r: Self)
        ensures
            r@ == buffer@,
    {
        let mut chars: Vec<char> = Vec::new();
        for c in it: buffer.chars()
            invariant
                chars@ == it.seq().take(it.index() as int),
        {
            chars.push(c);
        }
        assert(chars@ =~= buffer@);
        Self { chars, pos: 0 }
    }

    /// The next token, or `None` once the characters are used up.
    pub fn next(&mut self) -> (r: Option<Token>)
        ensures
            match r {
                None => {
                    &&& tokenize(old(self)@) == Seq::<Token>::empty()
                    &&& final(self)@.len() == 0
                },
                Some(t) => {
                    &&& tokenize(old(self)@) == seq![t] + tokenize(final(self)@)
                    &&& final(self)@.len() < old(self)@.len()
                },
            },
    {
        proof {
            use_type_invariant(&*self);
        }
        let ghost s = self@;
        if self.pos >= self.chars.len() {
            return None;
        }
        let ch = self.chars[self.pos];
        self.pos = self.pos + 1;
        assert(s[0] == ch && self@ =~= s.subrange(1, s.len() as int));
        assert(ch != '\\' ==> tokenize(s) == seq![token_of(ch)] + tokenize(self@));
        if ch == '\\' {
            if self.pos >= self.chars.len() {
                assert(s.len() == 1);
                return None;
            }
            let escaped = self.chars[self.pos];
            self.pos = self.pos + 1;
            assert(s.len() >= 2 && s[0] == '\\');
            assert(s[1] == escaped && self@ =~= s.subrange(2, s.len() as int));
            assert(tokenize(s) == seq![literal(escaped)] + tokenize(self@));
            Some(Token::Char(escaped))
        } else if ch == '{' {
            Some(Token::OpenBrace)
        } else if ch == '}' {
            Some(Token::CloseBrace)
        } else if ch == ',' {
            Some(Token::Comma)
        } else {
            Some(Token::Char(ch))
        }
    }
}

} // verus!
