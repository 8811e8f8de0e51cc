//! Tokens: what the scanner hands out, one per record.

use vstd::prelude::*;

verus! {

/// The kind of a token. The scanner hands out `Record` tokens only; the end
/// of the stream shows as the end of the sequence of tokens.
#[derive(Debug, Clone, Copy, PartialEq, Eq)]
pub enum TokenType {
    Record,
    Eof,
}

/// One parsed record.
#[derive(Debug, Clone)]
pub struct Token {
    pub token_type: TokenType,
    /// The fields of the record, in column order.
    pub value: Vec<String>,
    /// The number of the record in the input, counted from 1.
    pub line: u64,
}

/// The mathematical content of a `Token`.
#[verifier::ext_equal]
pub struct TokenView {
    pub kind: TokenType,
    pub fields: Seq<Seq<char>>,
    pub line: nat,
}

/// The texts of a sequence of strings.
pub open spec fn texts(strings: Seq<String>) -> Seq<Seq<char>> {
    strings.map_values(|s: String| s@)
}

/// The contents of a sequence of tokens.
pub open spec fn token_views(tokens: Seq<Token>) -> Seq<TokenView> {
    tokens.map_values(|t: Token| t@)
}

/// The texts of a sequence with one more string are the texts of the
/// sequence with one more text.
pub proof fn lemma_texts_push(strings: Seq<String>, s: String)
    ensures
        texts(strings.push(s)) == texts(strings).push(s@),
{
    assert(texts(strings.push(s)) =~= texts(strings).push(s@));
}

/// The contents of a sequence with one more token are the contents of the
/// sequence with one more content.
pub proof fn lemma_token_views_push(tokens: Seq<Token>, t: Token)
    ensures
        token_views(tokens.push(t)) == token_views(tokens).push(t@),
{
    assert(token_views(tokens.push(t)) =~= token_views(tokens).push(t@));
}

impl View for Token {
    type V = TokenView;

    open spec fn view(&self) -> TokenView {
        TokenView { kind: self.token_type, fields: texts(self.value@), line: self.line as nat }
    }
}

impl Token {
    /// A token with the same content as this one.
    pub fn duplicate(&self) -> (copy: Token)
        ensures
            copy@ == self@,
    {
        let mut value: Vec<String> = Vec::new();
        let mut i: usize = 0;
        while i < self.value.len()
            invariant
                i <= self.value.len(),
                texts(value@) == texts(self.value@).take(i as int),
            decreases self.value.len() - i,
        {
            let ghost before = value@;
            let s = self.value[i].clone();
            value.push(s);
            i += 1;
            proof {
                lemma_texts_push(before, s);
                assert(texts(self.value@).take(i as int) =~= texts(self.value@).take(i - 1).push(
                    self.value@[i - 1]@,
                ));
            }
        }
        assert(texts(self.value@).take(self.value.len() as int) =~= texts(self.value@));
        Token { token_type: self.token_type, value, line: self.line }
    }
}

/// A vector of tokens with the same contents as `tokens`.
pub fn duplicate_all(tokens: &Vec<Token>) -> (copy: Vec<Token>)
    ensures
        token_views(copy@) == token_views(tokens@),
{
    let mut copy: Vec<Token> = Vec::new();
    let mut i: usize = 0;
    while i < tokens.len()
        invariant
            i <= tokens.len(),
            token_views(copy@) == token_views(tokens@).take(i as int),
        decreases tokens.len() - i,
    {
        let ghost before = copy@;
        let t = tokens[i].duplicate();
        copy.push(t);
        i += 1;
        proof {
            lemma_token_views_push(before, t);
            assert(token_views(tokens@).take(i as int) =~= token_views(tokens@).take(i - 1).push(
                tokens@[i - 1]@,
            ));
        }
    }
    assert(token_views(tokens@).take(tokens.len() as int) =~= token_views(tokens@));
    copy
}

} // verus!
