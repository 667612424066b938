//! Literal and path syntax, read with `syn`.
//!
//! Attribute values reach this crate as the text of their tokens. What a
//! literal denotes, and whether a string names a path, is asked of `syn`.
//!
//! Nothing is claimed of the answers. `syn` has its tokens from
//! `proc_macro2`, which asks the compiler's lexer inside a procedural macro
//! and uses its own elsewhere, and the two do not split every text alike: an
//! answer is a fact about the text in the process that asked. The functions
//! that call these state what holds whatever the answer was.

use vstd::prelude::*;

verus! {

/// `syn::Error`, carried through as it is; nothing is known of what it says.
#[verifier::external_type_specification]
#[verifier::external_body]
pub struct ExSynError(syn::Error);

/// Reads a text as an integer literal and gives its value.
///
/// Calls `syn::parse_str::<syn::LitInt>` on the text and then
/// `syn::LitInt::base10_parse::<usize>` on the literal. Nothing is claimed of
/// the result.
#[verifier::external_body]
pub(crate) fn parse_int_literal(text: &str) -> Result<usize, syn::Error> {
    syn::parse_str::<syn::LitInt>(text)?.base10_parse::<usize>()
}

/// Reads a text as a string literal and gives the string that it denotes.
///
/// Calls `syn::parse_str::<syn::LitStr>` on the text and then
/// `syn::LitStr::value` on the literal. Nothing is claimed of the result.
#[verifier::external_body]
pub(crate) fn parse_str_literal(text: &str) -> Result<String, syn::Error> {
    Ok(syn::parse_str::<syn::LitStr>(text)?.value())
}

/// Splits a text into tokens and says whether that worked.
///
/// Calls `syn::parse_str::<proc_macro2::TokenStream>`. Nothing is claimed of
/// the result.
#[verifier::external_body]
pub(crate) fn check_token_text(text: &str) -> Result<(), syn::Error> {
    match syn::parse_str::<proc_macro2::TokenStream>(text) {
        Ok(_) => Ok(()),
        Err(e) => Err(e),
    }
}

/// Parses a text as a path expression and says whether that worked.
///
/// Calls `syn::parse_str::<syn::ExprPath>`. Nothing is claimed of the result.
#[verifier::external_body]
pub(crate) fn check_expr_path(text: &str) -> Result<(), syn::Error> {
    match syn::parse_str::<syn::ExprPath>(text) {
        Ok(_) => Ok(()),
        Err(e) => Err(e),
    }
}

} // verus!
