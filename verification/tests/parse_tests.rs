use asn1_aper::parse::{parse_integer_type, Asn1TypeInteger, NamedValue, ParseError, Token};

/// A small tokenizer standing in for the lexical collaborator: classifies
/// words (all-caps as keywords), signed decimal numbers and punctuation.
fn tokenize(input: &str) -> Result<Vec<Token>, String> {
    let chars: Vec<char> = input.chars().collect();
    let mut out = Vec::new();
    let mut i = 0;
    while i < chars.len() {
        let c = chars[i];
        if c.is_whitespace() {
            i += 1;
            continue;
        }
        match c {
            '{' => {
                out.push(Token::CurlyBegin);
                i += 1;
            }
            '}' => {
                out.push(Token::CurlyEnd);
                i += 1;
            }
            '(' => {
                out.push(Token::RoundBegin);
                i += 1;
            }
            ')' => {
                out.push(Token::RoundEnd);
                i += 1;
            }
            ',' => {
                out.push(Token::Comma);
                i += 1;
            }
            _ if c == '-' || c.is_ascii_digit() => {
                let mut j = i;
                if chars[j] == '-' {
                    j += 1;
                }
                let start_digits = j;
                while j < chars.len() && chars[j].is_ascii_digit() {
                    j += 1;
                }
                if j == start_digits {
                    return Err(format!("lone '-' at {}", i));
                }
                let text: String = chars[i..j].iter().collect();
                let n: i64 = text.parse().map_err(|_| format!("bad number {}", text))?;
                out.push(Token::Number(n));
                i = j;
            }
            _ if c.is_ascii_alphabetic() => {
                let mut j = i;
                while j < chars.len() && (chars[j].is_ascii_alphanumeric()) {
                    j += 1;
                }
                let word: Vec<char> = chars[i..j].to_vec();
                if word.iter().all(|ch| ch.is_ascii_uppercase()) {
                    out.push(Token::Keyword(word));
                } else {
                    out.push(Token::Identifier(word));
                }
                i = j;
            }
            _ => return Err(format!("unexpected character '{}'", c)),
        }
    }
    Ok(out)
}

fn cv(s: &str) -> Vec<char> {
    s.chars().collect()
}

#[test]
fn parse_integer_tests() {
    struct ParseIntegerTestCase<'tc> {
        input: &'tc str,
        success: bool,
        named_values_present: bool,
        named_values_count: usize,
        tokens_consumed: usize,
    }

    let test_cases = vec![
        ParseIntegerTestCase {
            input: "INTEGER",
            success: true,
            named_values_present: false,
            named_values_count: 0,
            tokens_consumed: 1,
        },
        ParseIntegerTestCase {
            input: "INTEGER {a(1)}",
            success: true,
            named_values_present: true,
            named_values_count: 1,
            tokens_consumed: 7,
        },
        ParseIntegerTestCase {
            input: "INTEGER {a(1), b(-10) }",
            success: true,
            named_values_present: true,
            named_values_count: 2,
            tokens_consumed: 12,
        },
        ParseIntegerTestCase {
            input: "INTEGER {a(1), b(c) }",
            success: true,
            named_values_present: true,
            named_values_count: 2,
            tokens_consumed: 12,
        },
        ParseIntegerTestCase {
            input: "INTEGER {a(1)}, b", // Success the training ", b" is ignored
            success: true,
            named_values_present: true,
            named_values_count: 1,
            tokens_consumed: 7,
        },
        ParseIntegerTestCase {
            input: "INTEGER {a()}",
            success: false,
            named_values_present: true,
            named_values_count: 1,
            tokens_consumed: 0,
        },
        ParseIntegerTestCase {
            input: "INTEGER {a(1), b}",
            success: false,
            named_values_present: false,
            named_values_count: 0,
            tokens_consumed: 0,
        },
        ParseIntegerTestCase {
            input: "INTEGER {a(1)",
            success: false,
            named_values_present: false,
            named_values_count: 0,
            tokens_consumed: 0,
        },
    ];

    for tc in test_cases {
        let tokens = tokenize(tc.input);
        assert!(tokens.is_ok());
        let tokens = tokens.unwrap();

        let int_type = parse_integer_type(&tokens);
        assert_eq!(int_type.is_ok(), tc.success, "{}", tc.input);

        if tc.success {
            let (int_type, int_type_consumed) = int_type.unwrap();
            assert_eq!(int_type_consumed, tc.tokens_consumed, "{}", tc.input);
            assert_eq!(
                int_type.named_values.is_some(),
                tc.named_values_present,
                "{}",
                tc.input
            );

            if tc.named_values_present {
                let named_values = int_type.named_values.unwrap();
                assert_eq!(named_values.len(), tc.named_values_count, "{}", tc.input);
            }
        }
    }
}

#[test]
fn parse_integer_named_value_contents() {
    let tokens = tokenize("INTEGER {a(1), b(-10) }").unwrap();
    let (int_type, consumed) = parse_integer_type(&tokens).unwrap();
    assert_eq!(consumed, 12);
    let nvs = int_type.named_values.unwrap();
    assert_eq!(nvs[0], (cv("a"), NamedValue::Literal(1)));
    assert_eq!(nvs[1], (cv("b"), NamedValue::Literal(-10)));
}

#[test]
fn parse_integer_reference_value() {
    let tokens = tokenize("INTEGER {a(1), b(c) }").unwrap();
    let (int_type, _) = parse_integer_type(&tokens).unwrap();
    let nvs = int_type.named_values.unwrap();
    assert_eq!(nvs[1], (cv("b"), NamedValue::Reference(cv("c"))));
}

#[test]
fn parse_integer_empty_value_fails() {
    let tokens = tokenize("INTEGER {a()}").unwrap();
    let r = parse_integer_type(&tokens);
    assert_eq!(r, Err(ParseError::ValueMissing));
}

#[test]
fn parse_integer_unterminated_fails() {
    let tokens = tokenize("INTEGER {a(1)").unwrap();
    let r = parse_integer_type(&tokens);
    assert_eq!(r, Err(ParseError::UnexpectedEnd));
}

#[test]
fn parse_integer_wrong_keyword_fails() {
    let tokens = tokenize("CHOICE {a(1)}").unwrap();
    let r = parse_integer_type(&tokens);
    assert_eq!(r, Err(ParseError::UnexpectedToken(Token::Keyword(cv("CHOICE")))));
}

#[test]
fn parse_integer_plain() {
    let tokens = tokenize("INTEGER").unwrap();
    let (int_type, consumed) = parse_integer_type(&tokens).unwrap();
    assert_eq!(consumed, 1);
    assert_eq!(int_type, Asn1TypeInteger { named_values: None });
}
