use vstd::prelude::*;
use vstd::string::StringExecFns;

verus! {

/// What can go wrong when a table of symbols is held against another one, or
/// when a tree is asked for an alphabet without symbols.
#[derive(Debug, Clone, Copy, PartialEq, Eq, Structural)]
pub enum SymbolMappingError {
    /// The weight table holds a symbol for which the code table has no code.
    SymbolNotFoundInCodes(char),
    /// The code table holds a symbol that the weight table does not know.
    ExtraSymbolInCodes(char),
    /// A text holds a symbol that the code table does not know.
    UnknownSymbolInString,
    /// A tree was asked for a table without entries.
    EmptyAlphabet,
}

/// The one-symbol text made of `symbol`.
///
/// Trusted: calls std's `String::from` on a `char`, which std documents as
/// the string made of that single character.
#[verifier::external_body]
pub(crate) fn symbol_text(symbol: char) -> (text: String)
    ensures
        text@ == seq![symbol],
{
    String::from(symbol)
}

impl SymbolMappingError {
    /// The text of the message, as a sequence of characters.
    pub open spec fn message_text(self) -> Seq<char> {
        match self {
            SymbolMappingError::SymbolNotFoundInCodes(symbol) => "Symbol "@ + seq![symbol]
                + " found in frequencies but not in codes."@,
            SymbolMappingError::ExtraSymbolInCodes(symbol) => "Extra symbol "@ + seq![symbol]
                + " found in codes but not in frequencies."@,
            SymbolMappingError::UnknownSymbolInString => "Unknown symbol found in the input string."@,
            SymbolMappingError::EmptyAlphabet => "Cannot build a tree for an empty alphabet."@,
        }
    }

    /// A sentence for the reader of an error, naming the symbol where there is one.
    pub fn message(&self) -> (text: String)
        ensures
            text@ == self.message_text(),
    {
        match self {
            SymbolMappingError::SymbolNotFoundInCodes(symbol) => {
                let name = symbol_text(*symbol);
                String::from_str("Symbol ").concat(name.as_str()).concat(
                    " found in frequencies but not in codes.",
                )
            },
            SymbolMappingError::ExtraSymbolInCodes(symbol) => {
                let name = symbol_text(*symbol);
                String::from_str("Extra symbol ").concat(name.as_str()).concat(
                    " found in codes but not in frequencies.",
                )
            },
            SymbolMappingError::UnknownSymbolInString => String::from_str(
                "Unknown symbol found in the input string.",
            ),
            SymbolMappingError::EmptyAlphabet => String::from_str(
                "Cannot build a tree for an empty alphabet.",
            ),
        }
    }
}

} // verus!
