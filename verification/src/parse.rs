//! Parsing the ASN.1 INTEGER type notation from a token stream.
//!
//! A parser consumes a prefix of the tokens handed to it and reports how
//! many it took, so parsers compose by starting the next one past that
//! count. A parse failure never reports a partial count: the whole attempt
//! is discarded. Trailing tokens after a complete construct are the
//! caller's concern.

use vstd::prelude::*;

verus! {

/// A classified lexical unit, as the tokenizer collaborator delivers it.
#[derive(Debug, PartialEq, Eq)]
pub enum Token {
    Keyword(Vec<char>),
    Identifier(Vec<char>),
    Number(i64),
    CurlyBegin,
    CurlyEnd,
    RoundBegin,
    RoundEnd,
    Comma,
}

/// The mathematical shape of a token.
pub enum TokenModel {
    Keyword(Seq<char>),
    Identifier(Seq<char>),
    Number(int),
    CurlyBegin,
    CurlyEnd,
    RoundBegin,
    RoundEnd,
    Comma,
}

/// The mathematical shape of a [`Token`].
pub open spec fn token_model(t: Token) -> TokenModel {
    match t {
        Token::Keyword(s) => TokenModel::Keyword(s@),
        Token::Identifier(s) => TokenModel::Identifier(s@),
        Token::Number(n) => TokenModel::Number(n as int),
        Token::CurlyBegin => TokenModel::CurlyBegin,
        Token::CurlyEnd => TokenModel::CurlyEnd,
        Token::RoundBegin => TokenModel::RoundBegin,
        Token::RoundEnd => TokenModel::RoundEnd,
        Token::Comma => TokenModel::Comma,
    }
}

impl Token {
    /// A copy of this token, for error reports.
    pub fn duplicate(&self) -> (r: Token)
        ensures
            token_model(r) == token_model(*self),
    {
        match self {
            Token::Keyword(s) => Token::Keyword(s.clone()),
            Token::Identifier(s) => Token::Identifier(s.clone()),
            Token::Number(n) => Token::Number(*n),
            Token::CurlyBegin => Token::CurlyBegin,
            Token::CurlyEnd => Token::CurlyEnd,
            Token::RoundBegin => Token::RoundBegin,
            Token::RoundEnd => Token::RoundEnd,
            Token::Comma => Token::Comma,
        }
    }
}

/// The value bound to a name in an INTEGER declaration: a signed literal,
/// or a reference to a value named elsewhere, substituted at resolution.
#[derive(Debug, PartialEq, Eq)]
pub enum NamedValue {
    Literal(i64),
    Reference(Vec<char>),
}

/// The mathematical shape of a named value.
pub enum NamedValueModel {
    Literal(int),
    Reference(Seq<char>),
}

/// The mathematical shape of a [`NamedValue`].
pub open spec fn nv_model(v: NamedValue) -> NamedValueModel {
    match v {
        NamedValue::Literal(n) => NamedValueModel::Literal(n as int),
        NamedValue::Reference(s) => NamedValueModel::Reference(s@),
    }
}

/// The mathematical shape of a parsed named-value list.
pub open spec fn nv_list_model(l: Seq<(Vec<char>, NamedValue)>) -> Seq<(Seq<char>, NamedValueModel)> {
    l.map_values(|p: (Vec<char>, NamedValue)| (p.0@, nv_model(p.1)))
}

/// A parsed INTEGER type: its optional named-value list, in declaration
/// order.
#[derive(Debug, PartialEq, Eq)]
pub struct Asn1TypeInteger {
    pub named_values: Option<Vec<(Vec<char>, NamedValue)>>,
}

/// Why a parse attempt failed.
#[derive(Debug, PartialEq, Eq)]
pub enum ParseError {
    /// Some other token stood where a specific one was expected; it is
    /// carried for the report.
    UnexpectedToken(Token),
    /// The input ended inside an unfinished construct.
    UnexpectedEnd,
    /// A named-value pair carries no value.
    ValueMissing,
}

/// The mathematical shape of a parse failure: the position of the
/// offending token, an unexpected end, or a missing value.
pub enum ParseFail {
    UnexpectedToken(int),
    UnexpectedEnd,
    ValueMissing,
}

/// Whether an exec error reports exactly the failure the model names.
pub open spec fn fail_model(e: ParseError, f: ParseFail, toks: Seq<Token>) -> bool {
    match f {
        ParseFail::UnexpectedToken(i) => e matches ParseError::UnexpectedToken(t) && 0 <= i
            < toks.len() && token_model(t) == token_model(toks[i]),
        ParseFail::UnexpectedEnd => e is UnexpectedEnd,
        ParseFail::ValueMissing => e is ValueMissing,
    }
}

/// The keyword that begins an INTEGER type.
pub open spec fn integer_kw() -> Seq<char> {
    seq!['I', 'N', 'T', 'E', 'G', 'E', 'R']
}

/// What parsing `name` or `name ( value )` at position `i` yields: the
/// name, the value if parentheses follow the name, and the count of tokens
/// taken. A bare name is not a failure here; the caller decides whether a
/// value was required. Empty parentheses are the "value missing" failure.
pub open spec fn spec_parse_nmv(toks: Seq<Token>, i: int) -> Result<
    ((Seq<char>, Option<NamedValueModel>), int),
    ParseFail,
> {
    if i >= toks.len() {
        Err(ParseFail::UnexpectedEnd)
    } else {
        match toks[i] {
            Token::Identifier(name) => {
                if i + 1 < toks.len() && toks[i + 1] is RoundBegin {
                    if i + 2 >= toks.len() {
                        Err(ParseFail::UnexpectedEnd)
                    } else {
                        match toks[i + 2] {
                            Token::Number(n) => if i + 3 >= toks.len() {
                                Err(ParseFail::UnexpectedEnd)
                            } else if toks[i + 3] is RoundEnd {
                                Ok(((name@, Some(NamedValueModel::Literal(n as int))), 4))
                            } else {
                                Err(ParseFail::UnexpectedToken(i + 3))
                            },
                            Token::Identifier(refname) => if i + 3 >= toks.len() {
                                Err(ParseFail::UnexpectedEnd)
                            } else if toks[i + 3] is RoundEnd {
                                Ok(((name@, Some(NamedValueModel::Reference(refname@))), 4))
                            } else {
                                Err(ParseFail::UnexpectedToken(i + 3))
                            },
                            Token::RoundEnd => Err(ParseFail::ValueMissing),
                            _ => Err(ParseFail::UnexpectedToken(i + 2)),
                        }
                    }
                } else {
                    Ok(((name@, None), 1))
                }
            },
            _ => Err(ParseFail::UnexpectedToken(i)),
        }
    }
}

/// A successful `spec_parse_nmv` takes one or four tokens.
pub proof fn lemma_nmv_consumed(toks: Seq<Token>, i: int)
    ensures
        spec_parse_nmv(toks, i) matches Ok(p) ==> p.1 == 1 || p.1 == 4,
{
}

/// What parsing the items of a named-value list at position `i` yields:
/// the pairs and the count of tokens taken, through the closing brace. A
/// pair without a value is the "value missing" failure; an input that ends
/// before the closing brace is an unexpected end.
pub open spec fn spec_parse_nv_items(toks: Seq<Token>, i: int) -> Result<
    (Seq<(Seq<char>, NamedValueModel)>, int),
    ParseFail,
>
    decreases toks.len() - i
    via spec_parse_nv_items_decreases
{
    match spec_parse_nmv(toks, i) {
        Err(f) => Err(f),
        Ok(((name, vopt), c)) => {
            match vopt {
                None => Err(ParseFail::ValueMissing),
                Some(v) => {
                    let j = i + c;
                    if j >= toks.len() {
                        Err(ParseFail::UnexpectedEnd)
                    } else if toks[j] is Comma {
                        match spec_parse_nv_items(toks, j + 1) {
                            Ok((rest, c2)) => Ok((seq![(name, v)] + rest, c + 1 + c2)),
                            Err(f) => Err(f),
                        }
                    } else if toks[j] is CurlyEnd {
                        Ok((seq![(name, v)], c + 1))
                    } else {
                        Err(ParseFail::UnexpectedToken(j))
                    }
                },
            }
        },
    }
}

#[via_fn]
proof fn spec_parse_nv_items_decreases(toks: Seq<Token>, i: int) {
    lemma_nmv_consumed(toks, i);
}

/// What parsing a brace-delimited named-value list at position `i` yields.
pub open spec fn spec_parse_named_values(toks: Seq<Token>, i: int) -> Result<
    (Seq<(Seq<char>, NamedValueModel)>, int),
    ParseFail,
> {
    if i >= toks.len() {
        Err(ParseFail::UnexpectedEnd)
    } else if !(toks[i] is CurlyBegin) {
        Err(ParseFail::UnexpectedToken(i))
    } else {
        match spec_parse_nv_items(toks, i + 1) {
            Ok((vs, c)) => Ok((vs, c + 1)),
            Err(f) => Err(f),
        }
    }
}

/// What parsing an INTEGER type at the front of the tokens yields: the
/// keyword alone is an INTEGER with no named values; a brace right after it
/// opens the named-value list. Anything else in front fails.
pub open spec fn spec_parse_integer(toks: Seq<Token>) -> Result<
    (Option<Seq<(Seq<char>, NamedValueModel)>>, int),
    ParseFail,
> {
    if toks.len() == 0 {
        Err(ParseFail::UnexpectedEnd)
    } else if !(token_model(toks[0]) == TokenModel::Keyword(integer_kw())) {
        Err(ParseFail::UnexpectedToken(0))
    } else if 1 < toks.len() && toks[1] is CurlyBegin {
        match spec_parse_named_values(toks, 1) {
            Ok((vs, c)) => Ok((Some(vs), 1 + c)),
            Err(f) => Err(f),
        }
    } else {
        Ok((None, 1))
    }
}

/// The model of an optional named value.
pub open spec fn option_nv_model(o: Option<NamedValue>) -> Option<NamedValueModel> {
    match o {
        None => None,
        Some(v) => Some(nv_model(v)),
    }
}

/// The model of a parsed INTEGER type.
pub open spec fn integer_model(t: Asn1TypeInteger) -> Option<Seq<(Seq<char>, NamedValueModel)>> {
    match t.named_values {
        None => None,
        Some(l) => Some(nv_list_model(l@)),
    }
}

/// Whether `s` spells the INTEGER keyword.
fn is_integer_chars(s: &Vec<char>) -> (r: bool)
    ensures
        r == (s@ == integer_kw()),
{
    let r = s.len() == 7 && s[0] == 'I' && s[1] == 'N' && s[2] == 'T' && s[3] == 'E' && s[4] == 'G'
        && s[5] == 'E' && s[6] == 'R';
    proof {
        if r {
            assert(s@ =~= integer_kw());
        }
    }
    r
}

/// Parses `name` or `name ( value )` at position `at`, yielding the name,
/// the value if one stands in parentheses, and the count of tokens taken.
fn parse_named_maybe_value(tokens: &Vec<Token>, at: usize) -> (r: Result<
    ((Vec<char>, Option<NamedValue>), usize),
    ParseError,
>)
    ensures
        spec_parse_nmv(tokens@, at as int) matches Ok(p) ==> (r matches Ok(q) && q.0.0@ == p.0.0
            && option_nv_model(q.0.1) == p.0.1 && q.1 == p.1 && at + q.1 <= tokens@.len()),
        spec_parse_nmv(tokens@, at as int) matches Err(f) ==> (r matches Err(e) && fail_model(
            e,
            f,
            tokens@,
        )),
{
    if at >= tokens.len() {
        return Err(ParseError::UnexpectedEnd);
    }
    match &tokens[at] {
        Token::Identifier(name) => {
            if at + 1 < tokens.len() && (matches!(&tokens[at + 1], Token::RoundBegin)) {
                if at + 2 >= tokens.len() {
                    return Err(ParseError::UnexpectedEnd);
                }
                match &tokens[at + 2] {
                    Token::Number(n) => {
                        if at + 3 >= tokens.len() {
                            Err(ParseError::UnexpectedEnd)
                        } else if (matches!(&tokens[at + 3], Token::RoundEnd)) {
                            Ok(((name.clone(), Some(NamedValue::Literal(*n))), 4))
                        } else {
                            Err(ParseError::UnexpectedToken(tokens[at + 3].duplicate()))
                        }
                    },
                    Token::Identifier(refname) => {
                        if at + 3 >= tokens.len() {
                            Err(ParseError::UnexpectedEnd)
                        } else if (matches!(&tokens[at + 3], Token::RoundEnd)) {
                            Ok(((name.clone(), Some(NamedValue::Reference(refname.clone()))), 4))
                        } else {
                            Err(ParseError::UnexpectedToken(tokens[at + 3].duplicate()))
                        }
                    },
                    Token::RoundEnd => Err(ParseError::ValueMissing),
                    _ => Err(ParseError::UnexpectedToken(tokens[at + 2].duplicate())),
                }
            } else {
                Ok(((name.clone(), None), 1))
            }
        },
        _ => Err(ParseError::UnexpectedToken(tokens[at].duplicate())),
    }
}

/// Parses the items of a named-value list at position `at`, through the
/// closing brace.
fn parse_nv_items(tokens: &Vec<Token>, at: usize) -> (r: Result<
    (Vec<(Vec<char>, NamedValue)>, usize),
    ParseError,
>)
    ensures
        spec_parse_nv_items(tokens@, at as int) matches Ok(p) ==> (r matches Ok(q)
            && nv_list_model(q.0@) == p.0 && q.1 == p.1 && at + q.1 <= tokens@.len()),
        spec_parse_nv_items(tokens@, at as int) matches Err(f) ==> (r matches Err(e) && fail_model(
            e,
            f,
            tokens@,
        )),
    decreases tokens@.len() - at,
{
    let ((name, vopt), c) = match parse_named_maybe_value(tokens, at) {
        Ok(p) => p,
        Err(e) => {
            return Err(e);
        },
    };
    let v = match vopt {
        Some(v) => v,
        None => {
            return Err(ParseError::ValueMissing);
        },
    };
    let total = tokens.len();
    proof {
        lemma_nmv_consumed(tokens@, at as int);
        assert(at + c <= total);
    }
    let j = at + c;
    if j >= tokens.len() {
        return Err(ParseError::UnexpectedEnd);
    }
    if matches!(&tokens[j], Token::Comma) {
        match parse_nv_items(tokens, j + 1) {
            Ok((mut rest, c2)) => {
                rest.insert(0, (name, v));
                proof {
                    let p = spec_parse_nv_items(tokens@, at as int)->Ok_0;
                    assert(nv_list_model(rest@) =~= p.0);
                }
                Ok((rest, c + 1 + c2))
            },
            Err(e) => Err(e),
        }
    } else if matches!(&tokens[j], Token::CurlyEnd) {
        let mut out: Vec<(Vec<char>, NamedValue)> = Vec::new();
        out.push((name, v));
        proof {
            let p = spec_parse_nv_items(tokens@, at as int)->Ok_0;
            assert(nv_list_model(out@) =~= p.0);
        }
        Ok((out, c + 1))
    } else {
        Err(ParseError::UnexpectedToken(tokens[j].duplicate()))
    }
}

/// Parses a brace-delimited, comma-separated named-value list at position
/// `at`. Every pair must carry an explicit value; an unterminated list is
/// an unexpected end.
fn parse_named_values(tokens: &Vec<Token>, at: usize) -> (r: Result<
    (Vec<(Vec<char>, NamedValue)>, usize),
    ParseError,
>)
    ensures
        spec_parse_named_values(tokens@, at as int) matches Ok(p) ==> (r matches Ok(q)
            && nv_list_model(q.0@) == p.0 && q.1 == p.1 && at + q.1 <= tokens@.len()),
        spec_parse_named_values(tokens@, at as int) matches Err(f) ==> (r matches Err(e)
            && fail_model(e, f, tokens@)),
{
    if at >= tokens.len() {
        return Err(ParseError::UnexpectedEnd);
    }
    if !(matches!(&tokens[at], Token::CurlyBegin)) {
        return Err(ParseError::UnexpectedToken(tokens[at].duplicate()));
    }
    match parse_nv_items(tokens, at + 1) {
        Ok((vs, c)) => Ok((vs, c + 1)),
        Err(e) => Err(e),
    }
}

/// Parses an INTEGER type at the front of the tokens: the keyword, then an
/// optional brace-delimited named-value list. Yields the parsed type and
/// the count of tokens taken; trailing tokens stay with the caller. The
/// whole attempt is discarded on failure, reporting no partial count.
pub fn parse_integer_type(tokens: &Vec<Token>) -> (r: Result<(Asn1TypeInteger, usize), ParseError>)
    ensures
        spec_parse_integer(tokens@) matches Ok(p) ==> (r matches Ok(q) && integer_model(q.0) == p.0
            && q.1 == p.1 && q.1 <= tokens@.len()),
        spec_parse_integer(tokens@) matches Err(f) ==> (r matches Err(e) && fail_model(
            e,
            f,
            tokens@,
        )),
{
    if tokens.len() == 0 {
        return Err(ParseError::UnexpectedEnd);
    }
    let kw_ok = match &tokens[0] {
        Token::Keyword(s) => is_integer_chars(s),
        _ => false,
    };
    if !kw_ok {
        return Err(ParseError::UnexpectedToken(tokens[0].duplicate()));
    }
    if tokens.len() > 1 && (matches!(&tokens[1], Token::CurlyBegin)) {
        match parse_named_values(tokens, 1) {
            Ok((vs, c)) => Ok((Asn1TypeInteger { named_values: Some(vs) }, 1 + c)),
            Err(e) => Err(e),
        }
    } else {
        Ok((Asn1TypeInteger { named_values: None }, 1))
    }
}

} // verus!
