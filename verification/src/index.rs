//! The path that selects a value: literals separated by dots.

use vstd::prelude::*;

verus! {

/// One token of the text that names a path.
#[derive(Clone, Debug, PartialEq, Eq)]
pub enum Token {
    /// A string literal, held by its value.
    Str(String),
    /// An integer literal, held by its digits in base 10.
    Int(String),
    /// A literal of any other kind: a float, a boolean, a character, a byte
    /// string.
    OtherLiteral,
    /// The punctuation `.`.
    Dot,
    /// Anything that is neither a literal nor a dot.
    Other,
}

/// The mathematical model of a [`Token`].
pub ghost enum TokenView {
    Str(Seq<char>),
    Int(Seq<char>),
    OtherLiteral,
    Dot,
    Other,
}

impl View for Token {
    type V = TokenView;

    open spec fn view(&self) -> TokenView {
        match self {
            Token::Str(value) => TokenView::Str(value@),
            Token::Int(digits) => TokenView::Int(digits@),
            Token::OtherLiteral => TokenView::OtherLiteral,
            Token::Dot => TokenView::Dot,
            Token::Other => TokenView::Other,
        }
    }
}

/// The models of the tokens of a list.
pub open spec fn token_views(tokens: Seq<Token>) -> Seq<TokenView> {
    tokens.map_values(|t: Token| t@)
}

/// One step of a path.
#[derive(Clone, Debug, PartialEq, Eq)]
pub enum Index {
    /// Selects the element of an array at this position.
    Int(usize),
    /// Selects the value of a table under this key.
    Str(String),
}

/// The mathematical model of an [`Index`].
pub ghost enum IndexView {
    Int(nat),
    Str(Seq<char>),
}

impl View for Index {
    type V = IndexView;

    open spec fn view(&self) -> IndexView {
        match self {
            Index::Int(position) => IndexView::Int(*position as nat),
            Index::Str(key) => IndexView::Str(key@),
        }
    }
}

/// A path: the steps that lead from a document to the value selected, first
/// step first.
#[derive(Clone, Debug, PartialEq, Eq)]
pub struct TomlIndex(pub Vec<Index>);

impl View for TomlIndex {
    type V = Seq<IndexView>;

    open spec fn view(&self) -> Seq<IndexView> {
        self.0@.map_values(|step: Index| step@)
    }
}

/// Why no literal could be read where a path needs one.
#[derive(Clone, Copy, Debug, PartialEq, Eq)]
pub enum Missing {
    /// The tokens ended.
    EndOfInput,
    /// The next token is no literal.
    NotALiteral,
}

/// Why a list of tokens is no path.
///
/// A `position` is the place of the offending token, counted from 0: the
/// literal that is not supported, or the token that stands where a literal is
/// missing. It is the number of tokens where the tokens end too early.
#[derive(Clone, Copy, Debug, PartialEq, Eq)]
pub enum ParseError {
    /// The literal at `position` is neither a string nor an integer.
    UnsupportedLiteral { position: usize },
    /// No literal stands at `position`, which is the start of the tokens or
    /// the place behind a dot.
    CannotParseItem { position: usize, cause: Missing },
}

impl ParseError {
    /// The message of the error.
    pub fn message(&self) -> (r: String)
        ensures
            r@ == match *self {
                ParseError::UnsupportedLiteral { .. } => "Unsupported literal"@,
                ParseError::CannotParseItem {
                    cause: Missing::NotALiteral,
                    ..
                } => "Cannot parse index item: expected literal"@,
                ParseError::CannotParseItem {
                    cause: Missing::EndOfInput,
                    ..
                } => "Cannot parse index item: unexpected end of input, expected literal"@,
            },
    {
        match self {
            ParseError::UnsupportedLiteral { .. } => "Unsupported literal".to_owned(),
            ParseError::CannotParseItem {
                cause: Missing::NotALiteral,
                ..
            } => "Cannot parse index item: expected literal".to_owned(),
            ParseError::CannotParseItem {
                cause: Missing::EndOfInput,
                ..
            } => "Cannot parse index item: unexpected end of input, expected literal".to_owned(),
        }
    }
}

/// Why a text, or the whole of a list of tokens, is no path.
#[derive(Clone, Copy, Debug, PartialEq, Eq)]
pub enum IndexError {
    /// The text is no sequence of Rust tokens.
    Lexical,
    /// The tokens do not begin with a path.
    Syntax(ParseError),
    /// An integer literal of the path has digits that are no number which
    /// `usize` holds.
    OutOfRange,
    /// Tokens follow the path; `position` is the number of tokens that the
    /// path takes.
    Trailing { position: usize },
}

/// What reading a list of tokens as a path comes to.
pub ghost enum Reading {
    /// The tokens start with this path.
    Path(Seq<IndexView>),
    /// The tokens are refused with this error.
    Rejected(ParseError),
    /// An integer literal was reached whose digits are no number that
    /// `usize` holds.
    OutOfRange,
}

/// Whether every character is a decimal digit, and there is one at least.
pub open spec fn is_decimal(digits: Seq<char>) -> bool {
    &&& digits.len() > 0
    &&& forall|i: int| 0 <= i < digits.len() ==> '0' <= #[trigger] digits[i] <= '9'
}

/// The number that a decimal digit denotes.
pub open spec fn digit_value(c: char) -> nat {
    if '0' <= c <= '9' {
        (c as u32 - '0' as u32) as nat
    } else {
        0
    }
}

/// The number that a string of decimal digits denotes.
pub open spec fn decimal_value(digits: Seq<char>) -> nat
    decreases digits.len(),
{
    if digits.len() == 0 {
        0
    } else {
        10 * decimal_value(digits.drop_last()) + digit_value(digits.last())
    }
}

/// The position that the digits of an integer literal denote, if `usize`
/// holds it.
pub open spec fn position_of(digits: Seq<char>) -> Option<usize> {
    if is_decimal(digits) && decimal_value(digits) <= usize::MAX {
        Some(decimal_value(digits) as usize)
    } else {
        None
    }
}

/// The step that a token stands for where a literal is expected: a string
/// literal for a key, an integer literal that `usize` holds for a position.
pub open spec fn step_of(token: TokenView) -> Option<IndexView> {
    match token {
        TokenView::Str(value) => Some(IndexView::Str(value)),
        TokenView::Int(digits) => match position_of(digits) {
            Some(position) => Some(IndexView::Int(position as nat)),
            None => None,
        },
        _ => None,
    }
}

/// Whether the token at `k` is what a path has there: a step at an even
/// place, a dot at an odd one.
pub open spec fn fits(tokens: Seq<TokenView>, k: int) -> bool {
    if k % 2 == 0 {
        step_of(tokens[k]) is Some
    } else {
        tokens[k] is Dot
    }
}

/// Whether the first `n` tokens are steps and dots in turn.
pub open spec fn path_start(tokens: Seq<TokenView>, n: int) -> bool {
    &&& 0 <= n <= tokens.len()
    &&& forall|k: int| 0 <= k < n ==> #[trigger] fits(tokens, k)
}

/// Whether a path ends behind the first `n` tokens: they are steps and dots
/// in turn, the last of them is a step, and no dot follows it.
pub open spec fn path_ends(tokens: Seq<TokenView>, n: int) -> bool {
    &&& n % 2 == 1
    &&& path_start(tokens, n)
    &&& (n == tokens.len() || !(tokens[n] is Dot))
}

/// The steps that stand at the even places of the first `n` tokens.
pub open spec fn steps_of(tokens: Seq<TokenView>, n: int) -> Seq<IndexView> {
    Seq::new(((n + 1) / 2) as nat, |k: int| step_of(tokens[2 * k])->0)
}

/// Puts steps in front of what the rest of the tokens comes to.
pub open spec fn after(steps: Seq<IndexView>, rest: Reading) -> Reading {
    match rest {
        Reading::Path(more) => Reading::Path(steps + more),
        other => other,
    }
}

/// What follows a step read at `at`: the rest of the path if a dot comes
/// next, the end of the path if not.
pub open spec fn reading_after(step: IndexView, tokens: Seq<TokenView>, at: int) -> Reading
    decreases tokens.len() - at, 0nat,
{
    if 0 <= at && at + 1 < tokens.len() && tokens[at + 1] is Dot {
        after(seq![step], reading_from(tokens, at + 2))
    } else {
        Reading::Path(seq![step])
    }
}

/// What reading comes to where `at` tokens have been read and a literal is
/// expected next.
pub open spec fn reading_from(tokens: Seq<TokenView>, at: int) -> Reading
    decreases tokens.len() - at, 1nat,
{
    if at < 0 || at >= tokens.len() {
        Reading::Rejected(
            ParseError::CannotParseItem { position: at as usize, cause: Missing::EndOfInput },
        )
    } else {
        match tokens[at] {
            TokenView::Str(value) => reading_after(IndexView::Str(value), tokens, at),
            TokenView::Int(digits) => match position_of(digits) {
                Some(position) => reading_after(IndexView::Int(position as nat), tokens, at),
                None => Reading::OutOfRange,
            },
            TokenView::OtherLiteral => Reading::Rejected(
                ParseError::UnsupportedLiteral { position: at as usize },
            ),
            _ => Reading::Rejected(
                ParseError::CannotParseItem { position: at as usize, cause: Missing::NotALiteral },
            ),
        }
    }
}

/// What reading a list of tokens as a path comes to: a literal, then a dot
/// and a literal as long as a dot follows.
pub open spec fn reading(tokens: Seq<TokenView>) -> Reading {
    reading_from(tokens, 0)
}

/// What reading the whole of a list of tokens as a path comes to: the path
/// that the tokens begin with, if nothing follows it.
pub open spec fn whole_reading(tokens: Seq<TokenView>) -> Result<Seq<IndexView>, IndexError> {
    match reading(tokens) {
        Reading::Path(steps) => if 2 * steps.len() - 1 < tokens.len() {
            Err(IndexError::Trailing { position: (2 * steps.len() - 1) as usize })
        } else {
            Ok(steps)
        },
        Reading::Rejected(error) => Err(IndexError::Syntax(error)),
        Reading::OutOfRange => Err(IndexError::OutOfRange),
    }
}

/// Whether a result is what reading the whole of the given tokens as a path
/// comes to.
pub open spec fn read_from(r: Result<TomlIndex, IndexError>, tokens: Seq<TokenView>) -> bool {
    match whole_reading(tokens) {
        Ok(steps) => r matches Ok(path) && path@ == steps,
        Err(error) => r == Err::<TomlIndex, IndexError>(error),
    }
}

/// A longer string of digits denotes no smaller a number.
proof fn lemma_decimal_value_grows(digits: Seq<char>, n: int)
    requires
        0 <= n <= digits.len(),
    ensures
        decimal_value(digits.take(n)) <= decimal_value(digits),
    decreases digits.len() - n,
{
    if n < digits.len() {
        lemma_decimal_value_grows(digits, n + 1);
        assert(digits.take(n + 1).drop_last() =~= digits.take(n));
    } else {
        assert(digits.take(n) =~= digits);
    }
}

/// Reads the digits of an integer literal: gives the number that they denote
/// in base ten, and `None` where there is no digit, where a character is no
/// digit, and where the number is larger than `usize` holds.
pub fn read_decimal(digits: &str) -> (r: Option<usize>)
    ensures
        r == position_of(digits@),
{
    if digits.is_empty() {
        return None;
    }
    let mut value: usize = 0;
    for c in it: digits.chars()
        invariant
            it.seq() == digits@,
            forall|i: int| 0 <= i < it.index() ==> '0' <= #[trigger] digits@[i] <= '9',
            value == decimal_value(digits@.take(it.index() as int)),
    {
        let ghost n = it.index() as int;
        proof {
            assert(digits@.take(n + 1).drop_last() =~= digits@.take(n));
            lemma_decimal_value_grows(digits@, n + 1);
        }
        if c < '0' || c > '9' {
            return None;
        }
        let digit: usize = (c as u32 - '0' as u32) as usize;
        match value.checked_mul(10) {
            Some(tens) => match tens.checked_add(digit) {
                Some(next) => {
                    value = next;
                },
                None => {
                    return None;
                },
            },
            None => {
                return None;
            },
        }
    }
    proof {
        assert(digits@.take(digits@.len() as int) =~= digits@);
    }
    Some(value)
}

/// Whether a token is a dot.
fn is_dot(token: &Token) -> (r: bool)
    ensures
        r == (token@ is Dot),
{
    match token {
        Token::Dot => true,
        _ => false,
    }
}

impl TomlIndex {
    /// Reads a path from the start of a list of tokens: a literal, then a dot
    /// and a literal as long as a dot follows. What follows the path is left
    /// unread.
    ///
    /// Gives `None` where an integer literal is reached whose digits are no
    /// number that `usize` holds.
    pub fn try_parse(input: &[Token]) -> (r: Option<Result<TomlIndex, ParseError>>)
        ensures
            match reading(token_views(input@)) {
                Reading::Path(steps) => r matches Some(Ok(path)) && path@ == steps,
                Reading::Rejected(error) => r == Some(Err::<TomlIndex, ParseError>(error)),
                Reading::OutOfRange => r is None,
            },
            r matches Some(Ok(path)) ==> path@.len() >= 1,
    {
        proof {
            if reading(token_views(input@)) is Path {
                lemma_path_shape(token_views(input@));
            }
        }
        let ghost tokens = token_views(input@);
        let mut steps: Vec<Index> = Vec::new();
        let mut at: usize = 0;
        loop
            invariant
                tokens == token_views(input@),
                at <= input.len(),
                reading(tokens) == after(TomlIndex(steps)@, reading_from(tokens, at as int)),
            decreases input.len() - at,
        {
            if at >= input.len() {
                return Some(
                    Err(ParseError::CannotParseItem { position: at, cause: Missing::EndOfInput }),
                );
            }
            let ghost before = TomlIndex(steps)@;
            match &input[at] {
                Token::Str(value) => {
                    steps.push(Index::Str(value.clone()));
                },
                Token::Int(digits) => match read_decimal(digits.as_str()) {
                    Some(position) => {
                        steps.push(Index::Int(position));
                    },
                    None => {
                        return None;
                    },
                },
                Token::OtherLiteral => {
                    return Some(Err(ParseError::UnsupportedLiteral { position: at }));
                },
                _ => {
                    return Some(
                        Err(
                            ParseError::CannotParseItem {
                                position: at,
                                cause: Missing::NotALiteral,
                            },
                        ),
                    );
                },
            }
            proof {
                let step = steps@[steps@.len() - 1]@;
                assert(TomlIndex(steps)@ =~= before + seq![step]);
            }
            if at + 1 < input.len() && is_dot(&input[at + 1]) {
                proof {
                    let step = steps@[steps@.len() - 1]@;
                    match reading_from(tokens, at + 2) {
                        Reading::Path(more) => {
                            assert(before + (seq![step] + more) =~= (before + seq![step]) + more);
                        },
                        _ => {},
                    }
                }
                at = at + 2;
            } else {
                return Some(Ok(TomlIndex(steps)));
            }
        }
    }

    /// Reads the whole of a list of tokens as a path: a literal, then a dot
    /// and a literal as long as a dot follows, and nothing behind them.
    pub fn from_tokens(input: &[Token]) -> (r: Result<TomlIndex, IndexError>)
        ensures
            read_from(r, token_views(input@)),
            r matches Ok(path) ==> path@.len() >= 1,
    {
        match TomlIndex::try_parse(input) {
            None => Err(IndexError::OutOfRange),
            Some(Err(error)) => Err(IndexError::Syntax(error)),
            Some(Ok(path)) => {
                proof {
                    lemma_path_shape(token_views(input@));
                }
                let given: usize = input.len();
                let steps: usize = path.0.len();
                let taken: usize = steps + (steps - 1);
                if taken < given {
                    Err(IndexError::Trailing { position: taken })
                } else {
                    Ok(path)
                }
            },
        }
    }

    /// Reads a path from the start of a list of tokens: a literal, then a dot
    /// and a literal as long as a dot follows. What follows the path is left
    /// unread.
    ///
    /// The digits of each integer literal that is reached must be a number
    /// that `usize` holds; [`lemma_integers_in_range`] shows one way to know
    /// it, and [`TomlIndex::try_parse`] asks for nothing.
    pub fn parse(input: &[Token]) -> (r: Result<TomlIndex, ParseError>)
        requires
            !(reading(token_views(input@)) is OutOfRange),
        ensures
            match reading(token_views(input@)) {
                Reading::Path(steps) => r matches Ok(path) && path@ == steps,
                Reading::Rejected(error) => r == Err::<TomlIndex, ParseError>(error),
                Reading::OutOfRange => false,
            },
            r matches Ok(path) ==> path@.len() >= 1,
    {
        match TomlIndex::try_parse(input) {
            Some(r) => r,
            None => unreached(),
        }
    }
}

/// Where the tokens up to `at` are steps and dots in turn, the last of them
/// a dot, reading them all comes to the steps among them, followed by what
/// reading from `at` comes to.
pub proof fn lemma_reading_resumes(tokens: Seq<TokenView>, at: int)
    requires
        at % 2 == 0,
        path_start(tokens, at),
    ensures
        reading(tokens) == after(steps_of(tokens, at - 1), reading_from(tokens, at)),
    decreases at,
{
    if at > 0 {
        let before: int = at - 2;
        assert(fits(tokens, before));
        assert(fits(tokens, before + 1));
        lemma_reading_resumes(tokens, before);
        let step = step_of(tokens[before])->0;
        assert(steps_of(tokens, at - 1) =~= steps_of(tokens, before - 1) + seq![step]);
        if reading_from(tokens, at) is Path {
            let more = reading_from(tokens, at)->Path_0;
            assert(steps_of(tokens, before - 1) + (seq![step] + more) =~= (steps_of(
                tokens,
                before - 1,
            ) + seq![step]) + more);
        }
    }
}

/// Where a path ends behind some tokens, reading comes to the path that is
/// made of the steps among them.
pub proof fn lemma_path_read(tokens: Seq<TokenView>, n: int)
    requires
        path_ends(tokens, n),
    ensures
        reading(tokens) == Reading::Path(steps_of(tokens, n)),
{
    let at: int = n - 1;
    lemma_reading_resumes(tokens, at);
    assert(fits(tokens, at));
    let step = step_of(tokens[at])->0;
    assert(steps_of(tokens, n) =~= steps_of(tokens, at - 1) + seq![step]);
}

/// Where reading from an even place, behind steps and dots in turn, comes to
/// a path, a path ends behind the tokens that it took.
proof fn lemma_path_shape_from(tokens: Seq<TokenView>, at: int)
    requires
        at % 2 == 0,
        path_start(tokens, at),
        reading_from(tokens, at) is Path,
    ensures
        reading_from(tokens, at)->Path_0.len() >= 1,
        path_ends(tokens, at + 2 * reading_from(tokens, at)->Path_0.len() - 1),
    decreases tokens.len() - at,
{
    assert(path_start(tokens, at + 1));
    if at + 1 < tokens.len() && tokens[at + 1] is Dot {
        assert(path_start(tokens, at + 2));
        lemma_path_shape_from(tokens, at + 2);
    }
}

/// Where reading comes to a path, a path ends behind the tokens that it
/// took: a dot less than twice as many tokens as the path has steps. The
/// path has one step at least, and its steps are those among these tokens.
pub proof fn lemma_path_shape(tokens: Seq<TokenView>)
    requires
        reading(tokens) is Path,
    ensures
        reading(tokens)->Path_0.len() >= 1,
        path_ends(tokens, 2 * reading(tokens)->Path_0.len() - 1),
        reading(tokens)->Path_0 == steps_of(tokens, 2 * reading(tokens)->Path_0.len() - 1),
{
    lemma_path_shape_from(tokens, 0);
    lemma_path_read(tokens, 2 * reading(tokens)->Path_0.len() - 1);
}

/// Tokens that begin with a dot are no path.
pub proof fn lemma_leading_dot(tokens: Seq<TokenView>)
    requires
        tokens.len() > 0,
        tokens[0] is Dot,
    ensures
        reading(tokens) == Reading::Rejected(
            ParseError::CannotParseItem { position: 0, cause: Missing::NotALiteral },
        ),
{
}

/// Tokens in which a dot follows a dot are no path, unless a path ends
/// before the two dots: reading goes no further than the end of a path.
pub proof fn lemma_double_dot(tokens: Seq<TokenView>, i: int)
    requires
        0 <= i,
        i + 1 < tokens.len(),
        tokens[i] is Dot,
        tokens[i + 1] is Dot,
        forall|n: int| 0 <= n < i ==> !path_ends(tokens, n),
    ensures
        !(reading(tokens) is Path),
{
    if reading(tokens) is Path {
        lemma_path_shape(tokens);
        let end: int = 2 * reading(tokens)->Path_0.len() - 1;
        if end > i + 1 {
            assert(fits(tokens, i));
            assert(fits(tokens, i + 1));
        }
    }
}

/// A literal that is neither a string nor an integer, standing where a step
/// of the path is read, is refused as an unsupported literal, and the error
/// names the place of that literal.
pub proof fn lemma_unsupported_literal(tokens: Seq<TokenView>, i: int)
    requires
        i % 2 == 0,
        path_start(tokens, i),
        i < tokens.len(),
        tokens[i] is OtherLiteral,
    ensures
        reading(tokens) == Reading::Rejected(
            ParseError::UnsupportedLiteral { position: i as usize },
        ),
{
    lemma_reading_resumes(tokens, i);
}

/// The whole of a list of tokens is no path where the tokens begin with a
/// dot, or a dot follows a dot in them.
pub proof fn lemma_misplaced_dot(tokens: Seq<TokenView>, i: int)
    requires
        0 <= i < tokens.len(),
        tokens[i] is Dot,
        i == 0 || tokens[i - 1] is Dot,
    ensures
        whole_reading(tokens) is Err,
{
    if reading(tokens) is Path {
        lemma_path_shape(tokens);
        let end: int = 2 * reading(tokens)->Path_0.len() - 1;
        if end > i {
            assert(fits(tokens, i));
            if i > 0 {
                assert(fits(tokens, i - 1));
            }
        }
    }
}

/// Where `usize` holds the number of every integer literal among the
/// tokens, reading them comes to a path or to an error.
pub proof fn lemma_integers_in_range(tokens: Seq<TokenView>)
    requires
        forall|i: int|
            0 <= i < tokens.len() ==> ((#[trigger] tokens[i]) matches TokenView::Int(digits)
                ==> position_of(digits) is Some),
    ensures
        !(reading(tokens) is OutOfRange),
{
    lemma_integers_in_range_from(tokens, 0);
}

/// The same of reading from any place.
proof fn lemma_integers_in_range_from(tokens: Seq<TokenView>, at: int)
    requires
        forall|i: int|
            0 <= i < tokens.len() ==> ((#[trigger] tokens[i]) matches TokenView::Int(digits)
                ==> position_of(digits) is Some),
    ensures
        !(reading_from(tokens, at) is OutOfRange),
    decreases tokens.len() - at,
{
    if 0 <= at < tokens.len() {
        if at + 1 < tokens.len() && tokens[at + 1] is Dot {
            lemma_integers_in_range_from(tokens, at + 2);
        }
        match tokens[at] {
            TokenView::Str(value) => {
                assert(reading_from(tokens, at) == reading_after(
                    IndexView::Str(value),
                    tokens,
                    at,
                ));
            },
            TokenView::Int(digits) => {
                assert(reading_from(tokens, at) == reading_after(
                    IndexView::Int(position_of(digits)->0 as nat),
                    tokens,
                    at,
                ));
            },
            _ => {},
        }
    }
}

} // verus!
