use vstd::prelude::*;

verus! {

/// One lexical unit of a document, in the order it appears in the text.
#[derive(Debug, Clone, PartialEq)]
pub enum Token {
    OpenTag(String),
    CloseTag(String),
    SelfClosingTag(String),
    XmlDeclaration,
    Attribute(String, String),
    Text(String),
    Comment(String),
    EndOfFile,
}

/// Why the text could not be split into tokens.
#[derive(Debug, Clone, Copy, PartialEq, Eq, Structural)]
pub enum TokenizeError {
    UnexpectedEndOfInput,
    MalformedTag,
    MalformedAttribute,
}

/// The mathematical value of a token: its strings as character sequences.
pub enum Tok {
    OpenTag(Seq<char>),
    CloseTag(Seq<char>),
    SelfClosingTag(Seq<char>),
    XmlDeclaration,
    Attribute(Seq<char>, Seq<char>),
    Text(Seq<char>),
    Comment(Seq<char>),
    EndOfFile,
}

impl View for Token {
    type V = Tok;

    open spec fn view(&self) -> Tok {
        match self {
            Token::OpenTag(n) => Tok::OpenTag(n@),
            Token::CloseTag(n) => Tok::CloseTag(n@),
            Token::SelfClosingTag(n) => Tok::SelfClosingTag(n@),
            Token::XmlDeclaration => Tok::XmlDeclaration,
            Token::Attribute(n, v) => Tok::Attribute(n@, v@),
            Token::Text(t) => Tok::Text(t@),
            Token::Comment(c) => Tok::Comment(c@),
            Token::EndOfFile => Tok::EndOfFile,
        }
    }
}

/// The values of a sequence of tokens.
pub open spec fn toks_view(ts: Seq<Token>) -> Seq<Tok> {
    ts.map_values(|t: Token| t@)
}

} // verus!
