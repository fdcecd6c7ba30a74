//! From the text of a path to its tokens.

use crate::index::{read_from, token_views, IndexError, Token, TokenView, TomlIndex};
use vstd::prelude::*;
use vstd::string::*;

verus! {

/// Calls `str::parse::<proc_macro2::TokenStream>`, which splits the text
/// into token trees, and takes the text of each by `to_string`; gives `None`
/// where `proc_macro2` reports that the text cannot be lexed. Nothing is
/// claimed of the outcome: inside a macro expansion `proc_macro2` hands the
/// text to the compiler's lexer, elsewhere it uses its own.
#[verifier::external_body]
fn split(text: &str) -> (r: Option<Vec<String>>) {
    let stream = text.parse::<proc_macro2::TokenStream>().ok()?;
    Some(stream.into_iter().map(|tree| tree.to_string()).collect())
}

/// Calls `syn::parse_str::<syn::Lit>` on the text of one token. A string
/// literal comes back with what `LitStr::value` gives, an integer literal
/// with what `LitInt::base10_digits` gives, any other literal as
/// [`Token::OtherLiteral`], and a text that `syn` reads no literal from as
/// [`Token::Other`]. The contract claims only that the outcome is never a
/// dot: the body makes none.
#[verifier::external_body]
fn read_literal(text: &str) -> (r: Token)
    ensures
        !(r@ is Dot),
{
    match syn::parse_str::<syn::Lit>(text) {
        Ok(syn::Lit::Str(lit)) => Token::Str(lit.value()),
        Ok(syn::Lit::Int(lit)) => Token::Int(lit.base10_digits().to_owned()),
        Ok(_) => Token::OtherLiteral,
        Err(_) => Token::Other,
    }
}

/// Tells what the text of one token tree stands for: a dot where the text is
/// `.`, else what `syn` reads from it.
fn classify(text: &str) -> (r: Token)
    ensures
        r@ is Dot <==> text@ == seq!['.'],
{
    if text.unicode_len() == 1 && text.get_char(0) == '.' {
        assert(text@ =~= seq!['.']);
        Token::Dot
    } else {
        read_literal(text)
    }
}

/// Splits a text into its tokens, and gives `None` where the text cannot be
/// lexed.
fn tokenize(text: &str) -> (r: Option<Vec<Token>>) {
    match split(text) {
        Some(texts) => Some(classify_each(&texts)),
        None => None,
    }
}

/// Reads a minus sign and the text of the token behind it as one literal:
/// a negative number comes back as a literal, with its sign among the digits
/// where it is an integer, and anything else as [`Token::Other`].
fn read_signed(number: &str) -> (r: Token)
    ensures
        !(r@ is Dot),
{
    let text = "-".to_owned().concat(number);
    read_literal(text.as_str())
}

/// Whether a text is the minus sign.
fn is_sign(text: &str) -> (r: bool)
    ensures
        r == (text@ == seq!['-']),
{
    if text.unicode_len() == 1 && text.get_char(0) == '-' {
        assert(text@ =~= seq!['-']);
        true
    } else {
        false
    }
}

/// The models of the strings of a list.
pub open spec fn string_views(strings: Seq<String>) -> Seq<Seq<char>> {
    strings.map_values(|s: String| s@)
}

/// Whether the tokens are what the texts of a list of token trees stand for.
/// Token for token from the end: the last token stands for the last text,
/// and is a dot exactly where that text is `.`; or it is a number that
/// stands for the last two texts, the first of which is the minus sign.
pub open spec fn stand_for(texts: Seq<Seq<char>>, tokens: Seq<TokenView>) -> bool
    decreases texts.len(),
{
    if texts.len() == 0 {
        tokens.len() == 0
    } else if tokens.len() == 0 {
        false
    } else {
        ||| {
            &&& tokens.last() is Dot <==> texts.last() == seq!['.']
            &&& stand_for(texts.drop_last(), tokens.drop_last())
        }
        ||| {
            &&& texts.len() >= 2
            &&& texts[texts.len() - 2] == seq!['-']
            &&& (tokens.last() is Int || tokens.last() is OtherLiteral)
            &&& stand_for(texts.take(texts.len() - 2), tokens.drop_last())
        }
    }
}

/// Tells what the texts of a list of token trees stand for, in their order:
/// one token for each text, a dot exactly where the text is `.`. A minus
/// sign and the text behind it make one token where `syn` reads the two as
/// one number, as it does where it reads a literal.
fn classify_each(texts: &Vec<String>) -> (tokens: Vec<Token>)
    ensures
        stand_for(string_views(texts@), token_views(tokens@)),
{
    let ghost all = string_views(texts@);
    let mut tokens: Vec<Token> = Vec::new();
    let mut i: usize = 0;
    assert(all.take(0) =~= Seq::empty());
    while i < texts.len()
        invariant
            i <= texts.len(),
            all == string_views(texts@),
            stand_for(all.take(i as int), token_views(tokens@)),
        decreases texts.len() - i,
    {
        let ghost before = token_views(tokens@);
        let mut number: Option<Token> = None;
        if i + 1 < texts.len() && is_sign(texts[i].as_str()) {
            let read = read_signed(texts[i + 1].as_str());
            if matches_number(&read) {
                number = Some(read);
            }
        }
        match number {
            Some(read) => {
                tokens.push(read);
                proof {
                    let now = all.take(i + 2);
                    assert(token_views(tokens@).drop_last() =~= before);
                    assert(now.take(now.len() - 2) =~= all.take(i as int));
                    assert(now[now.len() - 2] == all[i as int]);
                }
                i = i + 2;
            },
            None => {
                tokens.push(classify(texts[i].as_str()));
                proof {
                    let now = all.take(i + 1);
                    assert(token_views(tokens@).drop_last() =~= before);
                    assert(now.drop_last() =~= all.take(i as int));
                    assert(now.last() == all[i as int]);
                }
                i = i + 1;
            },
        }
    }
    assert(all.take(texts@.len() as int) =~= all);
    tokens
}

/// Whether a token is an integer literal or a literal of another kind than
/// a string.
fn matches_number(token: &Token) -> (r: bool)
    ensures
        r == (token@ is Int || token@ is OtherLiteral),
{
    match token {
        Token::Int(_) => true,
        Token::OtherLiteral => true,
        _ => false,
    }
}

impl TomlIndex {
    /// Reads a text as a path: literals separated by dots.
    ///
    /// The text is split into tokens by the Rust lexer, and the whole of the
    /// tokens is read as [`TomlIndex::from_tokens`] reads them. Which tokens
    /// a text has is not stated here; a text that the lexer refuses gives
    /// [`IndexError::Lexical`].
    ///
    /// A minus sign and the number behind it are one literal, and count as
    /// one token: `-1` is an integer literal that `usize` does not hold, and
    /// gives [`IndexError::OutOfRange`]; `-1.5` is an unsupported literal.
    pub fn parse_str(text: &str) -> (r: Result<TomlIndex, IndexError>)
        ensures
            r == Err::<TomlIndex, IndexError>(IndexError::Lexical) || exists|
                tokens: Seq<TokenView>,
            | #[trigger] read_from(r, tokens),
            r matches Ok(path) ==> path@.len() >= 1,
    {
        match tokenize(text) {
            Some(tokens) => {
                let r = TomlIndex::from_tokens(tokens.as_slice());
                assert(read_from(r, token_views(tokens@)));
                r
            },
            None => Err(IndexError::Lexical),
        }
    }
}

} // verus!
