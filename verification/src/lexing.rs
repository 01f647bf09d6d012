//! The character parsers of `nom` that the board grammar is built from.

use vstd::prelude::*;

verus! {

/// The outcome of a `nom` parser that did not succeed, `nom::Err`, as an
/// opaque value.
#[verifier::external_type_specification]
#[verifier::external_body]
#[verifier::reject_recursive_types(E)]
pub struct ExErr<E>(nom::Err<E>);

/// The default error of `nom`, `nom::error::Error`, as an opaque value.
#[verifier::external_type_specification]
#[verifier::external_body]
#[verifier::reject_recursive_types(I)]
pub struct ExError<I>(nom::error::Error<I>);

/// Calls `nom::character::complete::one_of` with the characters of `list`.
/// Claims that it accepts exactly an input whose first character occurs in
/// `list`, and then returns that character and the input after it.
#[verifier::external_body]
pub(crate) fn one_of<'a>(list: &str, input: &'a str) -> (parsed: Result<
    (&'a str, char),
    nom::Err<nom::error::Error<&'a str>>,
>)
    ensures
        match parsed {
            Ok((rest, found)) => input@.len() > 0 && found == input@[0] && list@.contains(found)
                && rest@ == input@.skip(1),
            Err(_) => input@.len() == 0 || !list@.contains(input@[0]),
        },
{
    nom::character::complete::one_of(list)(input)
}

/// Calls `nom::character::complete::newline`. Claims that it accepts
/// exactly an input whose first character is a line feed, and then returns
/// the line feed and the input after it.
#[verifier::external_body]
pub(crate) fn newline<'a>(input: &'a str) -> (parsed: Result<
    (&'a str, char),
    nom::Err<nom::error::Error<&'a str>>,
>)
    ensures
        match parsed {
            Ok((rest, found)) => input@.len() > 0 && input@[0] == '\n' && found == '\n' && rest@
                == input@.skip(1),
            Err(_) => input@.len() == 0 || input@[0] != '\n',
        },
{
    nom::character::complete::newline(input)
}

/// Calls `nom::combinator::eof`. Claims that it accepts exactly the empty
/// input, and then returns it twice.
#[verifier::external_body]
pub(crate) fn eof<'a>(input: &'a str) -> (parsed: Result<
    (&'a str, &'a str),
    nom::Err<nom::error::Error<&'a str>>,
>)
    ensures
        match parsed {
            Ok((rest, whole)) => input@.len() == 0 && rest@ == input@ && whole@ == input@,
            Err(_) => input@.len() > 0,
        },
{
    nom::combinator::eof(input)
}

} // verus!
