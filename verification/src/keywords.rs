//! The keyword table: an immutable exact-match mapping from a spelling to
//! its token kind. An identifier-shaped character run whose raw text equals
//! one of these spellings is always classified as the keyword, never as a
//! name literal.

use vstd::prelude::*;
use crate::token::TokenType;

verus! {

/// The exact-match keyword mapping, as a mathematical function from a raw
/// spelling to the keyword's token kind. `None` means the spelling is an
/// ordinary identifier-name.
pub open spec fn spec_keyword(s: Seq<char>) -> Option<TokenType> {
    if s == seq!['n', 'e', 's', 't'] {
        Some(TokenType::NEST)
    } else if s == seq!['o', 'f'] {
        Some(TokenType::OF)
    } else if s == seq!['L', 'e', 'a', 't', 'h', 'e', 'r', 'b', 'a', 'c', 'k'] {
        Some(TokenType::LEATHERBACK)
    } else if s == seq!['G', 'r', 'e', 'e', 'n'] {
        Some(TokenType::GREEN)
    } else if s == seq!['t', 'u', 'r', 't', 'l', 'e', 's'] {
        Some(TokenType::TURTLES)
    } else if s == seq!['~', '~', '~'] {
        Some(TokenType::SHORELINE)
    } else if s == seq!['-', '-', '-'] {
        Some(TokenType::HORIZON)
    } else {
        None
    }
}

/// Looks a raw identifier-shaped spelling up in the keyword table.
pub fn keyword_lookup(name: &Vec<char>) -> (r: Option<TokenType>)
    ensures
        r == spec_keyword(name@),
{
    let n = name.len();
    if n == 2 && name[0] == 'o' && name[1] == 'f' {
        proof {
            assert(name@ =~= seq!['o', 'f']);
        }
        Some(TokenType::OF)
    } else if n == 3 && name[0] == '~' && name[1] == '~' && name[2] == '~' {
        proof {
            assert(name@ =~= seq!['~', '~', '~']);
        }
        Some(TokenType::SHORELINE)
    } else if n == 3 && name[0] == '-' && name[1] == '-' && name[2] == '-' {
        proof {
            assert(name@ =~= seq!['-', '-', '-']);
        }
        Some(TokenType::HORIZON)
    } else if n == 4 && name[0] == 'n' && name[1] == 'e' && name[2] == 's' && name[3] == 't' {
        proof {
            assert(name@ =~= seq!['n', 'e', 's', 't']);
        }
        Some(TokenType::NEST)
    } else if n == 5 && name[0] == 'G' && name[1] == 'r' && name[2] == 'e' && name[3] == 'e'
        && name[4] == 'n' {
        proof {
            assert(name@ =~= seq!['G', 'r', 'e', 'e', 'n']);
        }
        Some(TokenType::GREEN)
    } else if n == 7 && name[0] == 't' && name[1] == 'u' && name[2] == 'r' && name[3] == 't'
        && name[4] == 'l' && name[5] == 'e' && name[6] == 's' {
        proof {
            assert(name@ =~= seq!['t', 'u', 'r', 't', 'l', 'e', 's']);
        }
        Some(TokenType::TURTLES)
    } else if n == 11 && name[0] == 'L' && name[1] == 'e' && name[2] == 'a' && name[3] == 't'
        && name[4] == 'h' && name[5] == 'e' && name[6] == 'r' && name[7] == 'b' && name[8] == 'a'
        && name[9] == 'c' && name[10] == 'k' {
        proof {
            assert(name@ =~= seq!['L', 'e', 'a', 't', 'h', 'e', 'r', 'b', 'a', 'c', 'k']);
        }
        Some(TokenType::LEATHERBACK)
    } else {
        None
    }
}

} // verus!
