use vstd::prelude::*;
use vstd::slice::slice_subrange;
use crate::lexer::texts;
use crate::types::{classified, lexemes, Lexeme, Token};

verus! {

/// Turns raw tokens into classified tokens, one at a time and in order.
pub struct Parser<'t, 'c> {
    raw_tokens: &'t [&'c [char]],
}

impl<'t, 'c> View for Parser<'t, 'c> {
    type V = Seq<Seq<char>>;

    /// The raw tokens not yet classified.
    closed spec fn view(&self) -> Seq<Seq<char>> {
        texts(self.raw_tokens@)
    }
}

/// The token of each of a list of raw texts.
pub open spec fn classified_all(raws: Seq<Seq<char>>) -> Seq<Lexeme> {
    Seq::new(raws.len(), |i: int| classified(raws[i]))
}

impl<'t, 'c> Parser<'t, 'c> {
    pub fn new(raw_tokens: &'t [&'c [char]]) -> (parser: Self)
        ensures
            parser@ == texts(raw_tokens@),
    {
        Self { raw_tokens }
    }

    /// Takes the first raw token off the front.
    fn deque(&mut self) -> (raw: &'c [char])
        requires
            old(self)@.len() > 0,
        ensures
            raw@ == old(self)@[0],
            final(self)@ == old(self)@.drop_first(),
    {
        let all = self.raw_tokens;
        let raw_token = all[0];
        self.raw_tokens = slice_subrange(all, 1, all.len());
        assert(texts(self.raw_tokens@) =~= texts(all@).drop_first());
        raw_token
    }

    /// Classifies the next raw token, or gives `None` once there is none left.
    pub fn next_token(&mut self) -> (token: Option<Token>)
        ensures
            token is Some <==> old(self)@.len() > 0,
            token matches Some(t) ==> t@ == classified(old(self)@[0]) && final(self)@ == old(
                self,
            )@.drop_first(),
            token is None ==> final(self)@ == old(self)@,
    {
        if self.raw_tokens.len() == 0 {
            return None;
        }
        let raw_token = self.deque();
        let token: Token = Token::classify(raw_token);
        Some(token)
    }

    /// Classifies all the raw tokens that were left.
    pub fn collect(self) -> (tokens: Vec<Token>)
        ensures
            lexemes(tokens@) == classified_all(self@),
    {
        let ghost start = self@;
        let mut parser = self;
        let mut tokens: Vec<Token> = Vec::new();
        loop
            invariant
                tokens@.len() + parser@.len() == start.len(),
                forall|i: int| 0 <= i < tokens@.len() ==> (#[trigger] tokens@[i])@ == classified(start[i]),
                forall|i: int| 0 <= i < parser@.len() ==> parser@[i] == start[tokens@.len() + i],
            ensures
                tokens@.len() == start.len(),
                forall|i: int| 0 <= i < tokens@.len() ==> (#[trigger] tokens@[i])@ == classified(start[i]),
            decreases parser@.len(),
        {
            match parser.next_token() {
                None => {
                    break;
                },
                Some(token) => {
                    tokens.push(token);
                },
            }
        }
        assert(lexemes(tokens@) =~= classified_all(start));
        tokens
    }
}

} // verus!
