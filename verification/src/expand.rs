//! From the text of a manifest and a path to the constant.

use crate::document::{document, parse};
use crate::index::{
    read_from, token_views, whole_reading, IndexError, Token, TokenView, TomlIndex,
};
use crate::lookup::{lookup, navigate};
use crate::translate::{translate, translation, Fragment, FragmentView};
use crate::value::Toml;
use vstd::prelude::*;

verus! {

/// Why no constant can be made.
#[derive(Clone, Copy, Debug, PartialEq, Eq)]
pub enum Failure {
    /// The manifest is no TOML document.
    Manifest,
    /// The tokens, or the text, are no path.
    Index(IndexError),
}

/// The constant that the path written in the tokens selects in a manifest:
/// the manifest is read first, then the path, and the value that the path
/// selects in the manifest is translated.
pub open spec fn expansion(manifest: Seq<char>, tokens: Seq<TokenView>) -> Result<
    FragmentView,
    Failure,
> {
    match document(manifest) {
        None => Err(Failure::Manifest),
        Some(toml) => match whole_reading(tokens) {
            Err(error) => Err(Failure::Index(error)),
            Ok(steps) => Ok(translation(navigate(steps, toml))),
        },
    }
}

/// Whether a result is the given constant, or the given failure.
pub open spec fn made(r: Result<Fragment, Failure>, expected: Result<FragmentView, Failure>) -> bool {
    match expected {
        Ok(constant) => r matches Ok(found) && found@ == constant,
        Err(failure) => r == Err::<Fragment, Failure>(failure),
    }
}

/// Makes the constant of the value that a path selects in a document.
fn constant_of(toml: Toml, index: Result<TomlIndex, IndexError>) -> (r: Result<Fragment, Failure>)
    ensures
        match index {
            Ok(path) => r matches Ok(found) && found@ == translation(navigate(path@, toml@)),
            Err(error) => r == Err::<Fragment, Failure>(Failure::Index(error)),
        },
{
    match index {
        Ok(path) => Ok(translate(lookup(path, toml))),
        Err(error) => Err(Failure::Index(error)),
    }
}

/// Makes the constant that the path written in the tokens selects in the
/// TOML document `manifest`.
///
/// The result depends on the text and the tokens alone: the same manifest
/// and the same path give the same constant.
pub fn expand(manifest: &str, input: &[Token]) -> (r: Result<Fragment, Failure>)
    ensures
        made(r, expansion(manifest@, token_views(input@))),
{
    match parse(manifest) {
        Some(toml) => constant_of(toml, TomlIndex::from_tokens(input)),
        None => Err(Failure::Manifest),
    }
}

/// Makes the constant that the path written in the text `input` selects in
/// the TOML document `manifest`.
///
/// The text is split into tokens by the Rust lexer, and the constant is made
/// of the tokens as [`expand`] makes it. Which tokens a text has is not
/// stated here; a text that the lexer refuses gives [`IndexError::Lexical`],
/// once the manifest has been read.
pub fn include_toml(manifest: &str, input: &str) -> (r: Result<Fragment, Failure>)
    ensures
        document(manifest@) is None ==> r == Err::<Fragment, Failure>(Failure::Manifest),
        document(manifest@) is Some ==> r == Err::<Fragment, Failure>(
            Failure::Index(IndexError::Lexical),
        ) || exists|tokens: Seq<TokenView>| #[trigger] made(r, expansion(manifest@, tokens)),
{
    match parse(manifest) {
        Some(toml) => {
            let index = TomlIndex::parse_str(input);
            let r = constant_of(toml, index);
            proof {
                if index != Err::<TomlIndex, IndexError>(IndexError::Lexical) {
                    let tokens = choose|tokens: Seq<TokenView>|
                        #[trigger] read_from(index, tokens);
                    assert(made(r, expansion(manifest@, tokens)));
                }
            }
            r
        },
        None => Err(Failure::Manifest),
    }
}

/// Two runs on the same manifest and the same tokens end alike: both make
/// the same constant, or both fail in the same way.
pub proof fn lemma_runs_agree(
    first: Result<Fragment, Failure>,
    second: Result<Fragment, Failure>,
    manifest: Seq<char>,
    tokens: Seq<TokenView>,
)
    requires
        made(first, expansion(manifest, tokens)),
        made(second, expansion(manifest, tokens)),
    ensures
        match (first, second) {
            (Ok(one), Ok(other)) => one@ == other@,
            (Err(one), Err(other)) => one == other,
            _ => false,
        },
{
}

} // verus!
