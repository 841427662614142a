use vstd::prelude::*;

verus! {

/// One structural unit of the key-value format.
#[derive(Clone, Debug)]
pub enum AcfToken {
    /// A string literal (a key or a value), holding the bytes between the quotes.
    String(String),
    /// The opening brace of a dictionary.
    DictStart,
    /// The closing brace of a dictionary.
    DictEnd,
}

/// The mathematical value of a token: a string token is seen through its characters.
pub enum TokenView {
    Str(Seq<char>),
    DictStart,
    DictEnd,
}

impl View for AcfToken {
    type V = TokenView;

    open spec fn view(&self) -> TokenView {
        match self {
            AcfToken::String(s) => TokenView::Str(s@),
            AcfToken::DictStart => TokenView::DictStart,
            AcfToken::DictEnd => TokenView::DictEnd,
        }
    }
}

impl PartialEq for AcfToken {
    fn eq(&self, other: &AcfToken) -> (r: bool) {
        match self {
            AcfToken::String(a) => match other {
                AcfToken::String(b) => a.eq(b),
                _ => false,
            },
            AcfToken::DictStart => match other {
                AcfToken::DictStart => true,
                _ => false,
            },
            AcfToken::DictEnd => match other {
                AcfToken::DictEnd => true,
                _ => false,
            },
        }
    }
}

impl vstd::std_specs::cmp::PartialEqSpecImpl for AcfToken {
    open spec fn obeys_eq_spec() -> bool {
        true
    }

    open spec fn eq_spec(&self, other: &AcfToken) -> bool {
        self@ == other@
    }
}

impl Eq for AcfToken {}

/// A violation of the lexical format.
#[derive(Clone, Copy, Debug, PartialEq, Eq, Structural)]
pub enum ParseError {
    /// A byte outside `{`, `}`, `"` and whitespace where a token must start.
    UnexpectedCharacter(char),
    /// The input ended inside a quoted literal.
    UnterminatedString,
    /// A token was required but the input had nothing left.
    UnexpectedEof,
}

} // verus!
