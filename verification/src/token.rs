use vstd::prelude::*;
use vstd::string::*;
use crate::text::{decimal, push_decimal};

verus! {

/// The kinds of token of the Datalog language.
#[derive(Clone, Copy, Debug, PartialEq, Eq, Structural)]
pub enum TokenType {
    Comma,
    Period,
    QMark,
    LeftParen,
    RightParen,
    Colon,
    ColonDash,
    Schemes,
    Facts,
    Rules,
    Queries,
    Id,
    String,
    Undefined,
    End,
}

/// A token: its kind, the text it was read from, and the line it ends on.
pub struct Token {
    pub t_type: TokenType,
    pub value: String,
    pub line: u32,
}

impl View for Token {
    type V = (TokenType, Seq<char>, u32);

    open spec fn view(&self) -> (TokenType, Seq<char>, u32) {
        (self.t_type, self.value@, self.line)
    }
}

/// The name of a token kind, as `{:?}` writes it.
pub open spec fn kind_name(t: TokenType) -> Seq<char> {
    match t {
        TokenType::Comma => "Comma"@,
        TokenType::Period => "Period"@,
        TokenType::QMark => "QMark"@,
        TokenType::LeftParen => "LeftParen"@,
        TokenType::RightParen => "RightParen"@,
        TokenType::Colon => "Colon"@,
        TokenType::ColonDash => "ColonDash"@,
        TokenType::Schemes => "Schemes"@,
        TokenType::Facts => "Facts"@,
        TokenType::Rules => "Rules"@,
        TokenType::Queries => "Queries"@,
        TokenType::Id => "Id"@,
        TokenType::String => "String"@,
        TokenType::Undefined => "Undefined"@,
        TokenType::End => "End"@,
    }
}

/// The text of a token as `(Kind,"value",line)`.
pub open spec fn token_text(t: (TokenType, Seq<char>, u32)) -> Seq<char> {
    "("@ + kind_name(t.0) + ",\""@ + t.1 + "\","@ + decimal(t.2 as nat) + ")"@
}

/// The name of a token kind.
pub fn kind_name_string(t: TokenType) -> (r: String)
    ensures
        r@ == kind_name(t),
{
    match t {
        TokenType::Comma => String::from_str("Comma"),
        TokenType::Period => String::from_str("Period"),
        TokenType::QMark => String::from_str("QMark"),
        TokenType::LeftParen => String::from_str("LeftParen"),
        TokenType::RightParen => String::from_str("RightParen"),
        TokenType::Colon => String::from_str("Colon"),
        TokenType::ColonDash => String::from_str("ColonDash"),
        TokenType::Schemes => String::from_str("Schemes"),
        TokenType::Facts => String::from_str("Facts"),
        TokenType::Rules => String::from_str("Rules"),
        TokenType::Queries => String::from_str("Queries"),
        TokenType::Id => String::from_str("Id"),
        TokenType::String => String::from_str("String"),
        TokenType::Undefined => String::from_str("Undefined"),
        TokenType::End => String::from_str("End"),
    }
}

/// Writes a token as `(Kind,"value",line)`.
pub fn token_to_string(token: &Token) -> (r: String)
    ensures
        r@ == token_text(token@),
{
    let mut r = String::from_str("(");
    let name = kind_name_string(token.t_type);
    r.append(name.as_str());
    r.append(",\"");
    r.append(token.value.as_str());
    r.append("\",");
    push_decimal(&mut r, token.line as u64);
    r.append(")");
    r
}

} // verus!
