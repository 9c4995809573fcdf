//! The reserved words of the language.

use crate::text::lemma_encode_injective;
use crate::token::TokenType;
use vstd::prelude::*;
use vstd::slice::*;
use vstd::string::*;

verus! {

/// The reserved word that `text` spells, if it spells one: the whole text,
/// letter for letter, in lower case.
pub open spec fn keyword(text: Seq<char>) -> Option<TokenType> {
    if text == "break"@ {
        Some(TokenType::Break)
    } else if text == "const"@ {
        Some(TokenType::Const)
    } else if text == "continue"@ {
        Some(TokenType::Continue)
    } else if text == "else"@ {
        Some(TokenType::Else)
    } else if text == "enum"@ {
        Some(TokenType::Enum)
    } else if text == "extern"@ {
        Some(TokenType::Extern)
    } else if text == "fn"@ {
        Some(TokenType::Function)
    } else if text == "for"@ {
        Some(TokenType::For)
    } else if text == "if"@ {
        Some(TokenType::If)
    } else if text == "impl"@ {
        Some(TokenType::Impl)
    } else if text == "impls"@ {
        Some(TokenType::Impls)
    } else if text == "in"@ {
        Some(TokenType::In)
    } else if text == "let"@ {
        Some(TokenType::Let)
    } else if text == "loop"@ {
        Some(TokenType::Loop)
    } else if text == "mod"@ {
        Some(TokenType::Mod)
    } else if text == "new"@ {
        Some(TokenType::New)
    } else if text == "nil"@ {
        Some(TokenType::Nil)
    } else if text == "return"@ {
        Some(TokenType::Return)
    } else if text == "throw"@ {
        Some(TokenType::Throw)
    } else if text == "trait"@ {
        Some(TokenType::Trait)
    } else if text == "type"@ {
        Some(TokenType::Type)
    } else if text == "use"@ {
        Some(TokenType::Use)
    } else if text == "while"@ {
        Some(TokenType::While)
    } else {
        None
    }
}

/// Whether two strings hold the same characters.
pub fn same_text(a: &str, b: &str) -> (r: bool)
    ensures
        r == (a@ == b@),
{
    let x = a.as_bytes();
    let y = b.as_bytes();
    if x.len() != y.len() {
        return false;
    }
    let mut i: usize = 0;
    while i < x.len()
        invariant
            i <= x@.len(),
            x@.len() == y@.len(),
            x@ == a.spec_bytes(),
            y@ == b.spec_bytes(),
            forall|j: int| 0 <= j < i ==> x@[j] == y@[j],
        decreases x@.len() - i,
    {
        if x[i] != y[i] {
            return false;
        }
        i += 1;
    }
    proof {
        assert(x@ =~= y@);
        lemma_encode_injective(a@, b@);
    }
    true
}

/// Looks `text` up among the reserved words.
pub fn match_keyword(text: &str) -> (r: Option<TokenType>)
    ensures
        r == keyword(text@),
{
    if same_text(text, "break") {
        Some(TokenType::Break)
    } else if same_text(text, "const") {
        Some(TokenType::Const)
    } else if same_text(text, "continue") {
        Some(TokenType::Continue)
    } else if same_text(text, "else") {
        Some(TokenType::Else)
    } else if same_text(text, "enum") {
        Some(TokenType::Enum)
    } else if same_text(text, "extern") {
        Some(TokenType::Extern)
    } else if same_text(text, "fn") {
        Some(TokenType::Function)
    } else if same_text(text, "for") {
        Some(TokenType::For)
    } else if same_text(text, "if") {
        Some(TokenType::If)
    } else if same_text(text, "impl") {
        Some(TokenType::Impl)
    } else if same_text(text, "impls") {
        Some(TokenType::Impls)
    } else if same_text(text, "in") {
        Some(TokenType::In)
    } else if same_text(text, "let") {
        Some(TokenType::Let)
    } else if same_text(text, "loop") {
        Some(TokenType::Loop)
    } else if same_text(text, "mod") {
        Some(TokenType::Mod)
    } else if same_text(text, "new") {
        Some(TokenType::New)
    } else if same_text(text, "nil") {
        Some(TokenType::Nil)
    } else if same_text(text, "return") {
        Some(TokenType::Return)
    } else if same_text(text, "throw") {
        Some(TokenType::Throw)
    } else if same_text(text, "trait") {
        Some(TokenType::Trait)
    } else if same_text(text, "type") {
        Some(TokenType::Type)
    } else if same_text(text, "use") {
        Some(TokenType::Use)
    } else if same_text(text, "while") {
        Some(TokenType::While)
    } else {
        None
    }
}

} // verus!
