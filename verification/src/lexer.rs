use vstd::prelude::*;
use vstd::slice::slice_subrange;
use crate::text::{alphabetic, alphanumeric, numeric, whitespace};
use crate::types::normalized;

verus! {

/// The classes of characters that the tokenizer tells apart.
pub enum CharClass {
    /// Whitespace, which separates tokens.
    Space,
    /// Numeric characters: what a number run is made of.
    Digit,
    /// Alphabetic and numeric characters and the underscore: what a word run is made of.
    Word,
    /// Everything that is neither alphabetic nor numeric, whitespace included: what a
    /// symbol run is made of.
    Symbol,
}

/// Whether `c` belongs to `class`.
pub open spec fn in_class(class: CharClass, c: char) -> bool {
    match class {
        CharClass::Space => whitespace(c),
        CharClass::Digit => numeric(c),
        CharClass::Word => alphanumeric(c) || c == '_',
        CharClass::Symbol => !alphanumeric(c) || whitespace(c),
    }
}

/// The class of run that a token starting with `first` is.
pub open spec fn run_class(first: char) -> CharClass {
    if numeric(first) {
        CharClass::Digit
    } else if alphabetic(first) {
        CharClass::Word
    } else {
        CharClass::Symbol
    }
}

/// Where the longest run of characters of `class` that starts at `from` ends.
pub open spec fn span(s: Seq<char>, from: int, class: CharClass) -> int
    decreases s.len() - from,
{
    if 0 <= from < s.len() && in_class(class, s[from]) {
        span(s, from + 1, class)
    } else {
        from
    }
}

/// `s` without its leading whitespace.
pub open spec fn trimmed(s: Seq<char>) -> Seq<char> {
    s.skip(span(s, 0, CharClass::Space))
}

/// The length of the token at the start of `s`, which is to be non-empty and to start
/// with a character that is no whitespace.
pub open spec fn token_len(s: Seq<char>) -> int {
    span(s, 0, run_class(s[0]))
}

/// The first raw token of `s`, if it has one.
pub open spec fn first_token(s: Seq<char>) -> Option<Seq<char>> {
    let t = trimmed(s);
    if t.len() == 0 {
        None
    } else {
        Some(t.take(token_len(t)))
    }
}

/// What is left of `s` behind its first raw token.
pub open spec fn after_first(s: Seq<char>) -> Seq<char> {
    let t = trimmed(s);
    if t.len() == 0 {
        t
    } else {
        t.skip(token_len(t))
    }
}

/// The characters of each of a list of raw tokens.
pub open spec fn texts(tokens: Seq<&[char]>) -> Seq<Seq<char>> {
    Seq::new(tokens.len(), |i: int| tokens[i]@)
}

/// All raw tokens of `s`, in order.
pub open spec fn raw_tokens(s: Seq<char>) -> Seq<Seq<char>>
    decreases s.len(),
{
    match first_token(s) {
        None => Seq::empty(),
        Some(t) => {
            proof {
                lemma_first_token(s);
            }
            seq![t] + raw_tokens(after_first(s))
        },
    }
}

/// A run ends between its start and the end of the text, holds only characters of its
/// class, and the character behind it, if there is one, is of another class.
pub proof fn lemma_span(s: Seq<char>, from: int, class: CharClass)
    requires
        0 <= from <= s.len(),
    ensures
        from <= span(s, from, class) <= s.len(),
        forall|i: int| from <= i < span(s, from, class) ==> in_class(class, #[trigger] s[i]),
        span(s, from, class) < s.len() ==> !in_class(class, s[span(s, from, class)]),
    decreases s.len() - from,
{
    if from < s.len() && in_class(class, s[from]) {
        lemma_span(s, from + 1, class);
    }
}

/// The run that starts at `from` ends at `end` if everything between them is of the
/// class and `end` is the end of the text or holds a character of another class.
pub proof fn lemma_span_unique(s: Seq<char>, from: int, end: int, class: CharClass)
    requires
        0 <= from <= end <= s.len(),
        forall|i: int| from <= i < end ==> in_class(class, #[trigger] s[i]),
        end < s.len() ==> !in_class(class, s[end]),
    ensures
        span(s, from, class) == end,
    decreases end - from,
{
    if from < end {
        lemma_span_unique(s, from + 1, end, class);
    }
}

/// A text that holds more than whitespace has a first token, which is not empty and
/// starts with a character that is no whitespace; what follows it is shorter than
/// the text.
pub proof fn lemma_first_token(s: Seq<char>)
    ensures
        first_token(s) matches Some(t) ==> {
            &&& t.len() > 0
            &&& !whitespace(t[0])
            &&& after_first(s).len() < s.len()
            &&& s == s.take(span(s, 0, CharClass::Space)) + t + after_first(s)
        },
        first_token(s) is None ==> after_first(s).len() == 0 && forall|i: int|
            0 <= i < s.len() ==> whitespace(#[trigger] s[i]),
{
    lemma_span(s, 0, CharClass::Space);
    let t = trimmed(s);
    if t.len() > 0 {
        let class = run_class(t[0]);
        assert(in_class(class, t[0]));
        lemma_span(t, 1, class);
        lemma_span(t, 0, class);
        assert(s =~= s.take(span(s, 0, CharClass::Space)) + t.take(token_len(t)) + t.skip(
            token_len(t),
        ));
    }
}

/// The raw tokens of a text, one behind the other.
pub open spec fn joined(tokens: Seq<Seq<char>>) -> Seq<char>
    decreases tokens.len(),
{
    if tokens.len() == 0 {
        Seq::empty()
    } else {
        tokens[0] + joined(tokens.drop_first())
    }
}

/// No raw token is empty and none starts with whitespace, so none is made of whitespace
/// alone; and a text has at most as many raw tokens as characters.
pub proof fn law_raw_tokens_are_runs(s: Seq<char>)
    ensures
        raw_tokens(s).len() <= s.len(),
        forall|i: int|
            0 <= i < raw_tokens(s).len() ==> (#[trigger] raw_tokens(s)[i]).len() > 0 && !whitespace(
                raw_tokens(s)[i][0],
            ),
    decreases s.len(),
{
    lemma_first_token(s);
    if first_token(s) is Some {
        law_raw_tokens_are_runs(after_first(s));
        let rest = raw_tokens(after_first(s));
        assert forall|i: int| 0 <= i < raw_tokens(s).len() implies (#[trigger] raw_tokens(
            s,
        )[i]).len() > 0 && !whitespace(raw_tokens(s)[i][0]) by {
            if i > 0 {
                assert(raw_tokens(s)[i] == rest[i - 1]);
            }
        }
    }
}

/// Each raw token is a run of one class that could not be longer: all its characters
/// are of the class that its first character asks for.
pub proof fn law_raw_tokens_are_of_one_class(s: Seq<char>)
    ensures
        forall|i: int, j: int|
            0 <= i < raw_tokens(s).len() && 0 <= j < raw_tokens(s)[i].len() ==> in_class(
                run_class(raw_tokens(s)[i][0]),
                #[trigger] raw_tokens(s)[i][j],
            ),
    decreases s.len(),
{
    lemma_first_token(s);
    if first_token(s) is Some {
        law_raw_tokens_are_of_one_class(after_first(s));
        let rest = raw_tokens(after_first(s));
        let t = trimmed(s);
        lemma_span(s, 0, CharClass::Space);
        lemma_span(t, 0, run_class(t[0]));
        assert forall|i: int, j: int|
            0 <= i < raw_tokens(s).len() && 0 <= j < raw_tokens(s)[i].len() implies in_class(
            run_class(raw_tokens(s)[i][0]),
            #[trigger] raw_tokens(s)[i][j],
        ) by {
            if i > 0 {
                assert(raw_tokens(s)[i] == rest[i - 1]);
            } else {
                assert(raw_tokens(s)[0][j] == t[j]);
            }
        }
    }
}

/// The raw tokens hold every character of the text that is no whitespace, once and in
/// the order of the text: the tokens without their whitespace, one behind the other,
/// are the text without its whitespace.
pub proof fn law_raw_tokens_cover_the_text(s: Seq<char>)
    ensures
        normalized(joined(raw_tokens(s))) == normalized(s),
    decreases s.len(),
{
    let keep = |c: char| !whitespace(c);
    lemma_first_token(s);
    match first_token(s) {
        None => {
            lemma_only_whitespace(s);
            assert(joined(raw_tokens(s)) =~= Seq::<char>::empty());
            lemma_only_whitespace(Seq::<char>::empty());
        },
        Some(t) => {
            let rest = after_first(s);
            let spaces = s.take(span(s, 0, CharClass::Space));
            law_raw_tokens_cover_the_text(rest);
            lemma_span(s, 0, CharClass::Space);
            lemma_only_whitespace(spaces);
            assert(raw_tokens(s).drop_first() =~= raw_tokens(rest));
            assert(joined(raw_tokens(s)) == t + joined(raw_tokens(rest)));
            Seq::filter_distributes_over_add(t, joined(raw_tokens(rest)), keep);
            Seq::filter_distributes_over_add(spaces + t, rest, keep);
            Seq::filter_distributes_over_add(spaces, t, keep);
            assert(Seq::<char>::empty() + t.filter(keep) =~= t.filter(keep));
        },
    }
}

/// A text of whitespace alone has an empty normalized form.
pub proof fn lemma_only_whitespace(s: Seq<char>)
    requires
        forall|i: int| 0 <= i < s.len() ==> whitespace(#[trigger] s[i]),
    ensures
        normalized(s) == Seq::<char>::empty(),
    decreases s.len(),
{
    reveal(Seq::filter);
    if s.len() > 0 {
        lemma_only_whitespace(s.drop_last());
    }
}

/// Whether `c` can stand in a number run.
fn continues_number(c: &char) -> (b: bool)
    ensures
        b == in_class(CharClass::Digit, *c),
{
    c.is_numeric()
}

/// Whether `c` can stand in a word run.
fn continues_word(c: &char) -> (b: bool)
    ensures
        b == in_class(CharClass::Word, *c),
{
    c.is_alphanumeric() || *c == '_'
}

/// Whether `c` can stand in a symbol run.
fn continues_symbols(c: &char) -> (b: bool)
    ensures
        b == in_class(CharClass::Symbol, *c),
{
    !c.is_alphanumeric() || c.is_whitespace()
}

/// Splits a text into raw tokens, front to back.
#[derive(Debug)]
pub struct Lexer<'c> {
    content: &'c [char],
}

impl<'c> View for Lexer<'c> {
    type V = Seq<char>;

    /// The characters not yet consumed.
    closed spec fn view(&self) -> Seq<char> {
        self.content@
    }
}

impl<'c> Lexer<'c> {
    pub fn new(content: &'c [char]) -> (lexer: Self)
        ensures
            lexer@ == content@,
    {
        Self { content }
    }

    /// Drops the whitespace at the front.
    fn trim_left(&mut self)
        ensures
            final(self)@ == trimmed(old(self)@),
    {
        let content = self.content;
        let mut n: usize = 0;
        while n < content.len() && content[n].is_whitespace()
            invariant
                n <= content@.len(),
                span(content@, 0, CharClass::Space) == span(content@, n as int, CharClass::Space),
            decreases content@.len() - n,
        {
            n += 1;
        }
        self.content = slice_subrange(content, n, content.len());
    }

    /// Takes the first `n` characters off the front and hands them out.
    fn chop(&mut self, n: usize) -> (token: &'c [char])
        requires
            n <= old(self)@.len(),
        ensures
            token@ == old(self)@.take(n as int),
            final(self)@ == old(self)@.skip(n as int),
    {
        let content = self.content;
        let token = slice_subrange(content, 0, n);
        self.content = slice_subrange(content, n, content.len());
        token
    }

    /// Takes the longest run of characters that `predicate` accepts off the front.
    fn chope_while<P: Fn(&char) -> bool>(&mut self, predicate: P) -> (token: &'c [char])
        requires
            forall|c: char| call_requires(predicate, (&c,)),
        ensures
            token@.len() <= old(self)@.len(),
            token@ == old(self)@.take(token@.len() as int),
            final(self)@ == old(self)@.skip(token@.len() as int),
            forall|i: int|
                0 <= i < token@.len() ==> call_ensures(predicate, (&#[trigger] token@[i],), true),
            token@.len() < old(self)@.len() ==> call_ensures(
                predicate,
                (&old(self)@[token@.len() as int],),
                false,
            ),
    {
        let content = self.content;
        let mut n: usize = 0;
        loop
            invariant
                content@ == self@,
                self@ == old(self)@,
                n <= content@.len(),
                forall|c: char| call_requires(predicate, (&c,)),
                forall|i: int|
                    0 <= i < n ==> call_ensures(predicate, (&#[trigger] content@[i],), true),
            ensures
                n <= content@.len(),
                n < content@.len() ==> call_ensures(predicate, (&content@[n as int],), false),
            decreases content@.len() - n,
        {
            if n >= content.len() {
                break;
            }
            if !predicate(&content[n]) {
                break;
            }
            n += 1;
        }
        self.chop(n)
    }

    /// Hands out the next raw token, or `None` once only whitespace is left.
    pub fn next_token(&mut self) -> (token: Option<&'c [char]>)
        ensures
            token is Some <==> first_token(old(self)@) is Some,
            token matches Some(t) ==> first_token(old(self)@) == Some(t@),
            final(self)@ == after_first(old(self)@),
    {
        self.trim_left();
        if self.content.len() == 0 {
            return None;
        }
        let ghost rest = self@;
        let first = self.content[0];
        if first.is_numeric() {
            let token = self.chope_while(continues_number);
            proof {
                assert forall|i: int| 0 <= i < token@.len() implies in_class(
                    CharClass::Digit,
                    #[trigger] rest[i],
                ) by {
                    assert(token@[i] == rest[i]);
                }
                lemma_span_unique(rest, 0, token@.len() as int, CharClass::Digit);
            }
            return Some(token);
        }
        if first.is_alphabetic() {
            let token = self.chope_while(continues_word);
            proof {
                assert forall|i: int| 0 <= i < token@.len() implies in_class(
                    CharClass::Word,
                    #[trigger] rest[i],
                ) by {
                    assert(token@[i] == rest[i]);
                }
                lemma_span_unique(rest, 0, token@.len() as int, CharClass::Word);
            }
            return Some(token);
        }
        let token = self.chope_while(continues_symbols);
        proof {
            assert forall|i: int| 0 <= i < token@.len() implies in_class(
                CharClass::Symbol,
                #[trigger] rest[i],
            ) by {
                assert(token@[i] == rest[i]);
            }
            lemma_span_unique(rest, 0, token@.len() as int, CharClass::Symbol);
        }
        Some(token)
    }

    /// Runs the lexer to its end and hands out all the raw tokens that were left.
    pub fn collect(self) -> (tokens: Vec<&'c [char]>)
        ensures
            texts(tokens@) == raw_tokens(self@),
    {
        let ghost start = self@;
        let mut lexer = self;
        let mut tokens: Vec<&'c [char]> = Vec::new();
        assert(texts(tokens@) + raw_tokens(lexer@) =~= raw_tokens(start));
        loop
            invariant
                raw_tokens(start) == texts(tokens@) + raw_tokens(lexer@),
            ensures
                raw_tokens(start) == texts(tokens@),
            decreases lexer@.len(),
        {
            let ghost before = lexer@;
            let ghost done = tokens@;
            proof {
                lemma_first_token(before);
            }
            match lexer.next_token() {
                None => {
                    assert(texts(done) + raw_tokens(before) =~= texts(done));
                    break;
                },
                Some(token) => {
                    tokens.push(token);
                    assert(texts(tokens@) =~= texts(done).push(token@));
                    assert(texts(done) + (seq![token@] + raw_tokens(lexer@)) =~= texts(
                        done,
                    ).push(token@) + raw_tokens(lexer@));
                },
            }
        }
        tokens
    }
}

} // verus!
