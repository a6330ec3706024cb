use vstd::prelude::*;
use vstd::std_specs::convert::FromSpecImpl;
use crate::text::whitespace;
use regex::Regex;
pub use crate::tree::{Binding, DqlNode, Source};

verus! {

/// The lexical category of a token.
#[derive(Debug, Clone, Copy, PartialEq, Eq, Structural)]
pub enum TokenType {
    Keyword,
    Identifier,
    Operator,
    Literal,
    Number,
    Delimiter,
    Asterisk,
    Mismatch,
}

/// How many categories have a pattern of their own; `Mismatch` is what is left.
pub const PATTERN_COUNT: usize = 7;

impl TokenType {
    /// The categories in the order in which their patterns are tried; from
    /// `PATTERN_COUNT` on there is only `Mismatch`.
    pub open spec fn spec_ranked(rank: int) -> TokenType {
        if rank == 0 {
            TokenType::Keyword
        } else if rank == 1 {
            TokenType::Identifier
        } else if rank == 2 {
            TokenType::Operator
        } else if rank == 3 {
            TokenType::Literal
        } else if rank == 4 {
            TokenType::Number
        } else if rank == 5 {
            TokenType::Delimiter
        } else if rank == 6 {
            TokenType::Asterisk
        } else {
            TokenType::Mismatch
        }
    }

    /// The pattern that a whole normalized text must match to fall into this category.
    /// `Mismatch` has none: it takes whatever no pattern took.
    pub open spec fn spec_pattern(self) -> Option<Seq<char>> {
        match self {
            TokenType::Keyword => Some(
                "^(?:SELECT|FROM|WHERE|JOIN|WITH|AS|UNION|GROUP|BY|HAVING|ORDER|DESC|ASC|DISTINCT|LIKE|BETWEEN|IN|IS|NULL|AND|OR|NOT|LIMIT|TOP|ALL|ANY|EXISTS|INNER|LEFT|RIGHT|FULL|OUTER)$"@,
            ),
            TokenType::Identifier => Some("^[A-Za-z_][A-Za-z0-9_]*$"@),
            TokenType::Operator => Some("^(?:<=|>=|<>|=|<|>)$"@),
            TokenType::Literal => Some("^'[^']*'$"@),
            TokenType::Number => Some("^[0-9]+$"@),
            TokenType::Delimiter => Some("^[;,()]$"@),
            TokenType::Asterisk => Some("^\\*$"@),
            TokenType::Mismatch => None,
        }
    }

    pub fn ranked(rank: usize) -> (kind: TokenType)
        ensures
            kind == Self::spec_ranked(rank as int),
    {
        if rank == 0 {
            TokenType::Keyword
        } else if rank == 1 {
            TokenType::Identifier
        } else if rank == 2 {
            TokenType::Operator
        } else if rank == 3 {
            TokenType::Literal
        } else if rank == 4 {
            TokenType::Number
        } else if rank == 5 {
            TokenType::Delimiter
        } else if rank == 6 {
            TokenType::Asterisk
        } else {
            TokenType::Mismatch
        }
    }

    pub fn pattern(self) -> (p: Option<&'static str>)
        ensures
            p is Some <==> self.spec_pattern() is Some,
            p matches Some(s) ==> self.spec_pattern() == Some(s@),
    {
        match self {
            TokenType::Keyword => Some(
                "^(?:SELECT|FROM|WHERE|JOIN|WITH|AS|UNION|GROUP|BY|HAVING|ORDER|DESC|ASC|DISTINCT|LIKE|BETWEEN|IN|IS|NULL|AND|OR|NOT|LIMIT|TOP|ALL|ANY|EXISTS|INNER|LEFT|RIGHT|FULL|OUTER)$",
            ),
            TokenType::Identifier => Some("^[A-Za-z_][A-Za-z0-9_]*$"),
            TokenType::Operator => Some("^(?:<=|>=|<>|=|<|>)$"),
            TokenType::Literal => Some("^'[^']*'$"),
            TokenType::Number => Some("^[0-9]+$"),
            TokenType::Delimiter => Some("^[;,()]$"),
            TokenType::Asterisk => Some("^\\*$"),
            TokenType::Mismatch => None,
        }
    }

    /// The category of the first pattern that matched, `hits[rank]` telling whether the
    /// pattern of `spec_ranked(rank)` did; `Mismatch` where none did.
    pub open spec fn spec_from_matches(hits: Seq<bool>) -> TokenType {
        Self::spec_ranked(first_hit(hits, 0))
    }

    /// Picks the category from the outcome of each pattern, the first match winning.
    pub fn from_matches(hits: &[bool]) -> (kind: TokenType)
        ensures
            kind == Self::spec_from_matches(hits@),
    {
        let mut rank: usize = 0;
        while rank < hits.len() && rank < PATTERN_COUNT && !hits[rank]
            invariant
                rank <= hits.len(),
                rank <= PATTERN_COUNT,
                first_hit(hits@, 0) == first_hit(hits@, rank as int),
            decreases hits.len() - rank,
        {
            rank += 1;
        }
        if rank < hits.len() {
            TokenType::ranked(rank)
        } else {
            TokenType::Mismatch
        }
    }
}

/// The least rank from `from` on, below `PATTERN_COUNT`, at which `hits` holds `true`;
/// `PATTERN_COUNT` where there is none.
pub open spec fn first_hit(hits: Seq<bool>, from: int) -> int
    decreases hits.len() - from,
{
    if from < 0 || from >= hits.len() || from >= PATTERN_COUNT {
        PATTERN_COUNT as int
    } else if hits[from] {
        from
    } else {
        first_hit(hits, from + 1)
    }
}

/// A classified token: its category and its text with all whitespace removed.
#[derive(Debug, Clone, PartialEq, Eq)]
pub struct Token {
    pub token_type: TokenType,
    pub value: String,
}

/// What a `Token` stands for in contracts.
pub struct Lexeme {
    pub kind: TokenType,
    pub text: Seq<char>,
}

impl View for Token {
    type V = Lexeme;

    open spec fn view(&self) -> Lexeme {
        Lexeme { kind: self.token_type, text: self.value@ }
    }
}

/// What each of a list of tokens stands for.
pub open spec fn lexemes(tokens: Seq<Token>) -> Seq<Lexeme> {
    Seq::new(tokens.len(), |i: int| tokens[i]@)
}

/// A raw text without its whitespace, the other characters in their order.
pub open spec fn normalized(raw: Seq<char>) -> Seq<char> {
    raw.filter(|c: char| !whitespace(c))
}

/// What `regex::Regex::new` followed by `Regex::is_match` gives for a pattern and a
/// haystack: `None` where the pattern does not compile, else whether it matches somewhere.
pub uninterp spec fn regex_search(pattern: Seq<char>, haystack: Seq<char>) -> Option<bool>;

/// Whether the pattern of `kind` takes `text`.
pub open spec fn accepts(kind: TokenType, text: Seq<char>) -> bool {
    match kind.spec_pattern() {
        Some(pattern) => regex_search(pattern, text) == Some(true),
        None => false,
    }
}

/// The category of a normalized text: that of the first pattern, in rank order, that takes it.
pub open spec fn kind_of(text: Seq<char>) -> TokenType {
    TokenType::spec_from_matches(
        Seq::new(PATTERN_COUNT as nat, |rank: int| accepts(TokenType::spec_ranked(rank), text)),
    )
}

/// The token that a raw text stands for.
pub open spec fn classified(raw: Seq<char>) -> Lexeme {
    Lexeme { kind: kind_of(normalized(raw)), text: normalized(raw) }
}

/// Compiles `pattern` with `regex::Regex::new` and runs `Regex::is_match` on `haystack`.
/// The contract only names the outcome; what a pattern matches is the regex crate's matter.
#[verifier::external_body]
fn search(pattern: &str, haystack: &str) -> (found: Option<bool>)
    ensures
        found == regex_search(pattern@, haystack@),
{
    match Regex::new(pattern) {
        Ok(re) => Some(re.is_match(haystack)),
        Err(_) => None,
    }
}

/// Copies `raw` without its whitespace.
pub fn normalize(raw: &[char]) -> (text: String)
    ensures
        text@ == normalized(raw@),
{
    let mut text = String::new();
    let mut i: usize = 0;
    proof {
        reveal(Seq::filter);
        assert(raw@.take(0) =~= Seq::<char>::empty());
    }
    while i < raw.len()
        invariant
            i <= raw.len(),
            text@ == normalized(raw@.take(i as int)),
        decreases raw.len() - i,
    {
        let c = raw[i];
        proof {
            reveal(Seq::filter);
            assert(raw@.take(i + 1).drop_last() =~= raw@.take(i as int));
        }
        if !c.is_whitespace() {
            text.push(c);
        }
        i += 1;
    }
    proof {
        assert(raw@.take(i as int) =~= raw@);
    }
    text
}

/// Tries the pattern of each ranked category on a normalized text.
pub fn match_patterns(text: &str) -> (hits: Vec<bool>)
    ensures
        hits@ == Seq::new(
            PATTERN_COUNT as nat,
            |rank: int| accepts(TokenType::spec_ranked(rank), text@),
        ),
{
    let mut hits: Vec<bool> = Vec::new();
    let mut rank: usize = 0;
    while rank < PATTERN_COUNT
        invariant
            rank <= PATTERN_COUNT,
            hits@.len() == rank,
            forall|r: int|
                0 <= r < rank ==> hits@[r] == accepts(TokenType::spec_ranked(r), text@),
        decreases PATTERN_COUNT - rank,
    {
        let hit = match TokenType::ranked(rank).pattern() {
            Some(pattern) => match search(pattern, text) {
                Some(found) => found,
                None => false,
            },
            None => false,
        };
        hits.push(hit);
        rank += 1;
    }
    assert(hits@ =~= Seq::new(
        PATTERN_COUNT as nat,
        |rank: int| accepts(TokenType::spec_ranked(rank), text@),
    ));
    hits
}

impl Token {
    /// A copy of this token.
    pub fn duplicate(&self) -> (copy: Token)
        ensures
            copy@ == self@,
    {
        Token { token_type: self.token_type, value: self.value.clone() }
    }

    /// Classifies one raw token: strips its whitespace and gives it the category of the
    /// first pattern that takes the whole of what is left.
    pub fn classify(raw: &[char]) -> (token: Token)
        ensures
            token@ == classified(raw@),
    {
        let value = normalize(raw);
        let hits = match_patterns(value.as_str());
        let token_type = TokenType::from_matches(hits.as_slice());
        Token { token_type, value }
    }
}

/// Stripping the whitespace of a text that has none left changes nothing.
pub proof fn lemma_normalized_twice(raw: Seq<char>)
    ensures
        normalized(normalized(raw)) == normalized(raw),
    decreases raw.len(),
{
    reveal(Seq::filter);
    if raw.len() > 0 {
        let front = raw.drop_last();
        lemma_normalized_twice(front);
        if !whitespace(raw.last()) {
            let kept = normalized(front).push(raw.last());
            assert(kept.drop_last() =~= normalized(front));
        }
    }
}

/// Whitespace put anywhere into a text does not show in its normalized form.
pub proof fn lemma_normalized_without(raw: Seq<char>, at: int, space: char)
    requires
        0 <= at <= raw.len(),
        whitespace(space),
    ensures
        normalized(raw.insert(at, space)) == normalized(raw),
{
    let keep = |c: char| !whitespace(c);
    let front = raw.take(at);
    let back = raw.skip(at);
    assert(raw.insert(at, space) =~= (front + seq![space]) + back);
    assert(raw =~= front + back);
    Seq::filter_distributes_over_add(front + seq![space], back, keep);
    Seq::filter_distributes_over_add(front, seq![space], keep);
    Seq::filter_distributes_over_add(front, back, keep);
    assert(seq![space].filter(keep) =~= Seq::<char>::empty()) by {
        reveal_with_fuel(Seq::filter, 2);
        assert(seq![space].drop_last() =~= Seq::<char>::empty());
    }
    assert(front.filter(keep) + Seq::<char>::empty() =~= front.filter(keep));
}

/// Classifying a text that is already normalized gives the token of the raw text it
/// came from: kind and text are the same.
pub proof fn law_classified_again(raw: Seq<char>)
    ensures
        classified(normalized(raw)) == classified(raw),
{
    lemma_normalized_twice(raw);
}

/// Whitespace inside a raw token does not change what it is classified as: `> =` is
/// the token that `>=` is.
pub proof fn law_whitespace_is_ignored(raw: Seq<char>, at: int, space: char)
    requires
        0 <= at <= raw.len(),
        whitespace(space),
    ensures
        classified(raw.insert(at, space)) == classified(raw),
{
    lemma_normalized_without(raw, at, space);
}

/// The first pattern that takes a text decides its category, whatever later patterns
/// would say: a reserved word is a `Keyword` though the pattern of `Identifier` takes it
/// too. `Mismatch` is what a text is that no pattern takes.
pub proof fn law_first_match_wins(text: Seq<char>, rank: int)
    requires
        0 <= rank < PATTERN_COUNT,
    ensures
        kind_of(text) == TokenType::spec_ranked(rank) <==> accepts(
            TokenType::spec_ranked(rank),
            text,
        ) && forall|earlier: int|
            0 <= earlier < rank ==> !accepts(TokenType::spec_ranked(earlier), text),
        kind_of(text) == TokenType::Mismatch <==> forall|any: int|
            0 <= any < PATTERN_COUNT ==> !accepts(TokenType::spec_ranked(any), text),
        accepts(TokenType::Keyword, text) ==> kind_of(text) == TokenType::Keyword,
{
    reveal_with_fuel(first_hit, 8);
    let hits = Seq::new(
        PATTERN_COUNT as nat,
        |r: int| accepts(TokenType::spec_ranked(r), text),
    );
    assert(forall|r: int| 0 <= r < PATTERN_COUNT ==> hits[r] == accepts(TokenType::spec_ranked(r), text));
    assert(hits[0] == accepts(TokenType::spec_ranked(0), text));
    assert(hits[1] == accepts(TokenType::spec_ranked(1), text));
    assert(hits[2] == accepts(TokenType::spec_ranked(2), text));
    assert(hits[3] == accepts(TokenType::spec_ranked(3), text));
    assert(hits[4] == accepts(TokenType::spec_ranked(4), text));
    assert(hits[5] == accepts(TokenType::spec_ranked(5), text));
    assert(hits[6] == accepts(TokenType::spec_ranked(6), text));
}

impl<'c> FromSpecImpl<&'c [char]> for Token {
    open spec fn obeys_from_spec() -> bool {
        false
    }

    open spec fn from_spec(raw: &'c [char]) -> Token {
        arbitrary()
    }
}

impl<'c> From<&'c [char]> for Token {
    fn from(raw: &'c [char]) -> (token: Token)
        ensures
            token@ == classified(raw@),
    {
        Token::classify(raw)
    }
}

} // verus!
