//! All token types.
use vstd::prelude::*;

use crate::pos::Span;

verus! {

/// A token with its span in the source code.
#[derive(Debug, Clone, PartialEq)]
pub struct TokenSpan<'src> {
    /// The token
    pub tok: Token<'src>,
    /// Byte position of token in the file
    pub span: Span,
}

/// Represents a keyword
#[derive(Copy, Clone, PartialEq, Eq, Debug, Structural)]
pub enum Keyword {
    Shape,
    Param,
}

/// A token.
#[derive(Debug, Clone, PartialEq, Eq)]
pub enum Token<'src> {
    Ident(&'src str),
    Keyword(Keyword),
    // Some kind of separators
    // (   )   {   }   [   ]   ;   ,   .   :   ::
    ParenOp,
    ParenCl,
    BraceOp,
    BraceCl,
    BracketOp,
    BracketCl,
    Semi,
    Comma,
    Dot,
    Colon,
    ColonColon,
}

/// The mathematical content of a token: identifiers are taken by their
/// chars.
pub enum TokenView {
    Ident(Seq<char>),
    Keyword(Keyword),
    ParenOp,
    ParenCl,
    BraceOp,
    BraceCl,
    BracketOp,
    BracketCl,
    Semi,
    Comma,
    Dot,
    Colon,
    ColonColon,
}

impl<'src> View for Token<'src> {
    type V = TokenView;

    open spec fn view(&self) -> TokenView {
        match *self {
            Token::Ident(s) => TokenView::Ident(s@),
            Token::Keyword(k) => TokenView::Keyword(k),
            Token::ParenOp => TokenView::ParenOp,
            Token::ParenCl => TokenView::ParenCl,
            Token::BraceOp => TokenView::BraceOp,
            Token::BraceCl => TokenView::BraceCl,
            Token::BracketOp => TokenView::BracketOp,
            Token::BracketCl => TokenView::BracketCl,
            Token::Semi => TokenView::Semi,
            Token::Comma => TokenView::Comma,
            Token::Dot => TokenView::Dot,
            Token::Colon => TokenView::Colon,
            Token::ColonColon => TokenView::ColonColon,
        }
    }
}

/// The source text of a keyword.
pub open spec fn keyword_text(k: Keyword) -> Seq<char> {
    match k {
        Keyword::Shape => seq!['s', 'h', 'a', 'p', 'e'],
        Keyword::Param => seq!['p', 'a', 'r', 'a', 'm'],
    }
}

/// The keyword whose text is `s`, if any.
pub open spec fn keyword_of(s: Seq<char>) -> Option<Keyword> {
    if s == keyword_text(Keyword::Shape) {
        Some(Keyword::Shape)
    } else if s == keyword_text(Keyword::Param) {
        Some(Keyword::Param)
    } else {
        None
    }
}

/// The text of a token as it appears in the source.
pub open spec fn token_text(t: TokenView) -> Seq<char> {
    match t {
        TokenView::Ident(s) => s,
        TokenView::Keyword(k) => keyword_text(k),
        TokenView::ParenOp => seq!['('],
        TokenView::ParenCl => seq![')'],
        TokenView::BraceOp => seq!['{'],
        TokenView::BraceCl => seq!['}'],
        TokenView::BracketOp => seq!['['],
        TokenView::BracketCl => seq![']'],
        TokenView::Semi => seq![';'],
        TokenView::Comma => seq![','],
        TokenView::Dot => seq!['.'],
        TokenView::Colon => seq![':'],
        TokenView::ColonColon => seq![':', ':'],
    }
}

impl Keyword {
    /// The source text of the keyword.
    pub fn as_str(&self) -> (r: &'static str)
        ensures
            r@ == keyword_text(*self),
    {
        match self {
            Keyword::Shape => {
                let s = "shape";
                proof {
                    reveal_strlit("shape");
                }
                s
            },
            Keyword::Param => {
                let s = "param";
                proof {
                    reveal_strlit("param");
                }
                s
            },
        }
    }

    /// Parses a keyword from its source text.
    pub fn from_str(s: &str) -> (r: Result<Keyword, ()>)
        ensures
            r matches Ok(k) ==> keyword_of(s@) == Some(k),
            r is Err ==> keyword_of(s@) is None,
    {
        if s.unicode_len() != 5 {
            return Err(());
        }
        let c0 = s.get_char(0);
        let c1 = s.get_char(1);
        let c2 = s.get_char(2);
        let c3 = s.get_char(3);
        let c4 = s.get_char(4);
        if c0 == 's' && c1 == 'h' && c2 == 'a' && c3 == 'p' && c4 == 'e' {
            assert(s@ =~= keyword_text(Keyword::Shape));
            Ok(Keyword::Shape)
        } else if c0 == 'p' && c1 == 'a' && c2 == 'r' && c3 == 'a' && c4 == 'm' {
            assert(s@ =~= keyword_text(Keyword::Param));
            Ok(Keyword::Param)
        } else {
            proof {
                if s@ == keyword_text(Keyword::Shape) {
                    assert(s@[0] == 's');
                }
                if s@ == keyword_text(Keyword::Param) {
                    assert(s@[0] == 'p');
                }
            }
            Err(())
        }
    }
}

impl<'src> Token<'src> {
    /// The source text of the token.
    pub fn as_str(&self) -> (r: &'src str)
        ensures
            r@ == token_text(self@),
    {
        match *self {
            Token::Ident(ident) => ident,
            Token::Keyword(kw) => kw.as_str(),
            Token::ParenOp => {
                proof {
                    reveal_strlit("(");
                }
                "("
            },
            Token::ParenCl => {
                proof {
                    reveal_strlit(")");
                }
                ")"
            },
            Token::BraceOp => {
                proof {
                    reveal_strlit("{");
                }
                "{"
            },
            Token::BraceCl => {
                proof {
                    reveal_strlit("}");
                }
                "}"
            },
            Token::BracketOp => {
                proof {
                    reveal_strlit("[");
                }
                "["
            },
            Token::BracketCl => {
                proof {
                    reveal_strlit("]");
                }
                "]"
            },
            Token::Semi => {
                proof {
                    reveal_strlit(";");
                }
                ";"
            },
            Token::Comma => {
                proof {
                    reveal_strlit(",");
                }
                ","
            },
            Token::Dot => {
                proof {
                    reveal_strlit(".");
                }
                "."
            },
            Token::Colon => {
                proof {
                    reveal_strlit(":");
                }
                ":"
            },
            Token::ColonColon => {
                proof {
                    reveal_strlit("::");
                }
                "::"
            },
        }
    }
}

} // verus!
