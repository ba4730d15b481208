use glsl_lexer::lexer::{
    CharsAndLocation, Lexer, LexerItem, ReplaceComments, SkipBackslashNewline, Token, TokenValue,
    COMMENT_SENTINEL_VALUE,
};
use glsl_lexer::token as tk;
use glsl_lexer::token::{Float, Integer, Location, PreprocessorError, Punct};

fn collect(input: &str) -> Vec<LexerItem> {
    let mut lexer = Lexer::new(input);
    let mut items = Vec::new();
    while let Some(item) = lexer.next() {
        items.push(item);
    }
    items
}

fn loc(line: u32, pos: u32) -> Location {
    Location { line, pos }
}

fn tok(value: TokenValue, location: Location, lw: bool, sol: bool) -> LexerItem {
    Ok(Token {
        value,
        location,
        leading_whitespace: lw,
        start_of_line: sol,
    })
}

fn ident(name: &str, location: Location, lw: bool, sol: bool) -> LexerItem {
    tok(TokenValue::Ident(name.to_string()), location, lw, sol)
}

fn integer(value: u64, signed: bool, location: Location, lw: bool, sol: bool) -> LexerItem {
    tok(
        TokenValue::Integer(Integer {
            value,
            signed,
            width: 32,
        }),
        location,
        lw,
        sol,
    )
}

#[test]
fn empty_input_gives_no_tokens() {
    assert_eq!(collect(""), vec![]);
}

#[test]
fn whitespace_only_gives_no_tokens() {
    assert_eq!(collect(" \t\x0b\x0c"), vec![]);
}

#[test]
fn lone_lf_counts_one_line() {
    assert_eq!(
        collect("a\nb"),
        vec![
            ident("a", loc(1, 0), true, true),
            tok(TokenValue::NewLine, loc(1, 1), false, false),
            ident("b", loc(2, 0), true, true),
            tok(TokenValue::NewLine, loc(2, 1), false, false),
        ]
    );
}

#[test]
fn lone_cr_counts_one_line() {
    assert_eq!(
        collect("a\rb"),
        vec![
            ident("a", loc(1, 0), true, true),
            tok(TokenValue::NewLine, loc(1, 1), false, false),
            ident("b", loc(2, 0), true, true),
            tok(TokenValue::NewLine, loc(2, 1), false, false),
        ]
    );
}

#[test]
fn crlf_counts_one_line() {
    assert_eq!(
        collect("a\r\nb"),
        vec![
            ident("a", loc(1, 0), true, true),
            tok(TokenValue::NewLine, loc(1, 1), false, false),
            ident("b", loc(2, 0), true, true),
            tok(TokenValue::NewLine, loc(2, 1), false, false),
        ]
    );
}

#[test]
fn lfcr_counts_one_line() {
    assert_eq!(
        collect("a\n\rb"),
        vec![
            ident("a", loc(1, 0), true, true),
            tok(TokenValue::NewLine, loc(1, 1), false, false),
            ident("b", loc(2, 0), true, true),
            tok(TokenValue::NewLine, loc(2, 1), false, false),
        ]
    );
}

#[test]
fn lf_lf_counts_two_lines() {
    assert_eq!(
        collect("a\n\nb"),
        vec![
            ident("a", loc(1, 0), true, true),
            tok(TokenValue::NewLine, loc(1, 1), false, false),
            tok(TokenValue::NewLine, loc(2, 0), true, true),
            ident("b", loc(3, 0), true, true),
            tok(TokenValue::NewLine, loc(3, 1), false, false),
        ]
    );
}

#[test]
fn continuation_joins_identifier() {
    assert_eq!(
        collect("ab\\\nc"),
        vec![
            ident("abc", loc(1, 0), true, true),
            tok(TokenValue::NewLine, loc(1, 1), false, false),
        ]
    );
}

#[test]
fn continuation_matches_plain_tokenization() {
    assert_eq!(collect("ab\\\nc"), collect("abc"));
}

#[test]
fn backslash_without_newline_is_kept() {
    let items = collect("a\\b");
    assert_eq!(items[0], ident("a", loc(1, 0), true, true));
    assert_eq!(
        items[1],
        Err((PreprocessorError::UnexpectedCharacter, loc(1, 1)))
    );
    assert_eq!(items[2], ident("b", loc(1, 2), false, false));
}

#[test]
fn line_comment_is_transparent() {
    let mut lexer = Lexer::new("// foo\nbar");
    assert!(!lexer.had_comments());
    let mut items = Vec::new();
    while let Some(item) = lexer.next() {
        items.push(item);
    }
    assert_eq!(
        items,
        vec![
            tok(TokenValue::NewLine, loc(1, 6), true, true),
            ident("bar", loc(2, 0), true, true),
            tok(TokenValue::NewLine, loc(2, 1), false, false),
        ]
    );
    assert!(lexer.had_comments());
}

#[test]
fn multi_line_block_comment_advances_lines() {
    assert_eq!(
        collect("/*\n\n*/x"),
        vec![
            ident("x", loc(3, 2), true, true),
            tok(TokenValue::NewLine, loc(3, 3), false, false),
        ]
    );
}

#[test]
fn unterminated_block_comment_absorbs_rest() {
    let mut lexer = Lexer::new("/* no end");
    assert!(lexer.next().is_none());
    assert!(lexer.had_comments());
}

#[test]
fn comment_separates_tokens_with_whitespace() {
    assert_eq!(
        collect("a/*c*/b"),
        vec![
            ident("a", loc(1, 0), true, true),
            ident("b", loc(1, 6), true, false),
            tok(TokenValue::NewLine, loc(1, 7), false, false),
        ]
    );
}

#[test]
fn slash_alone_is_punctuation() {
    let items = collect("a/b");
    assert_eq!(
        items[1],
        tok(TokenValue::Punct(Punct::Slash), loc(1, 1), false, false)
    );
}

#[test]
fn hex_literal_value() {
    assert_eq!(
        collect("0x1A"),
        vec![
            integer(26, true, loc(1, 0), true, true),
            tok(TokenValue::NewLine, loc(1, 1), false, false),
        ]
    );
}

#[test]
fn octal_literal_value() {
    assert_eq!(
        collect("010"),
        vec![
            integer(8, true, loc(1, 0), true, true),
            tok(TokenValue::NewLine, loc(1, 1), false, false),
        ]
    );
}

#[test]
fn float_literal_with_suffix() {
    let items = collect("1.0f");
    assert_eq!(
        items[0],
        tok(
            TokenValue::Float(Float {
                digits: "1.0".to_string(),
                width: 32,
            }),
            loc(1, 0),
            true,
            true
        )
    );
    if let Ok(Token {
        value: TokenValue::Float(f),
        ..
    }) = &items[0]
    {
        assert_eq!(f.digits.parse::<f32>().unwrap(), 1.0f32);
    } else {
        panic!("expected a float token");
    }
}

#[test]
fn float_starting_with_dot() {
    let items = collect(".5");
    assert_eq!(
        items[0],
        tok(
            TokenValue::Float(Float {
                digits: ".5".to_string(),
                width: 32,
            }),
            loc(1, 0),
            true,
            true
        )
    );
}

#[test]
fn float_with_empty_fraction() {
    let items = collect("1.");
    assert_eq!(
        items[0],
        tok(
            TokenValue::Float(Float {
                digits: "1.".to_string(),
                width: 32,
            }),
            loc(1, 0),
            true,
            true
        )
    );
}

#[test]
fn unsigned_literal() {
    let items = collect("1u");
    assert_eq!(items[0], integer(1, false, loc(1, 0), true, true));
}

#[test]
fn unsupported_64_bit_integer_literal_resumes() {
    assert_eq!(
        collect("1L"),
        vec![
            Err((PreprocessorError::NotSupported64BitLiteral, loc(1, 0))),
            tok(TokenValue::NewLine, loc(1, 1), false, false),
        ]
    );
}

#[test]
fn rejected_suffix_is_consumed_with_the_literal() {
    assert_eq!(
        collect("1L;"),
        vec![
            Err((PreprocessorError::NotSupported64BitLiteral, loc(1, 0))),
            tok(TokenValue::Punct(Punct::Semicolon), loc(1, 2), false, false),
            tok(TokenValue::NewLine, loc(1, 3), false, false),
        ]
    );
}

#[test]
fn float_parse_failure_on_hex_digits_in_float_text() {
    assert_eq!(
        collect("0xA.5"),
        vec![
            Err((PreprocessorError::FloatParsingError, loc(1, 0))),
            tok(TokenValue::NewLine, loc(1, 1), false, false),
        ]
    );
}

#[test]
fn unsupported_16_bit_integer_literal() {
    let items = collect("1s");
    assert_eq!(
        items[0],
        Err((PreprocessorError::NotSupported16BitLiteral, loc(1, 0)))
    );
}

#[test]
fn unsupported_float_width_suffixes() {
    let items = collect("1.0h");
    assert_eq!(
        items[0],
        Err((PreprocessorError::NotSupported16BitLiteral, loc(1, 0)))
    );
    let items = collect("1.0l");
    assert_eq!(
        items[0],
        Err((PreprocessorError::NotSupported64BitLiteral, loc(1, 0)))
    );
}

#[test]
fn integer_overflow_is_reported() {
    let items = collect("0xFFFFFFFFFFFFFFFFF");
    assert_eq!(items[0], Err((PreprocessorError::IntegerOverflow, loc(1, 0))));
}

#[test]
fn largest_u64_is_accepted() {
    let items = collect("0xFFFFFFFFFFFFFFFF");
    assert_eq!(items[0], integer(u64::MAX, true, loc(1, 0), true, true));
}

#[test]
fn invalid_octal_digit_is_overflow_error() {
    let items = collect("08");
    assert_eq!(items[0], Err((PreprocessorError::IntegerOverflow, loc(1, 0))));
}

#[test]
fn maximal_munch_left_shift_assign() {
    assert_eq!(
        collect("<<="),
        vec![
            tok(
                TokenValue::Punct(Punct::LeftShiftAssign),
                loc(1, 0),
                true,
                true
            ),
            tok(TokenValue::NewLine, loc(1, 1), false, false),
        ]
    );
}

#[test]
fn maximal_munch_shorter_operators() {
    let items = collect("<< <= <");
    assert_eq!(
        items[0],
        tok(TokenValue::Punct(Punct::LeftShift), loc(1, 0), true, true)
    );
    assert_eq!(
        items[1],
        tok(TokenValue::Punct(Punct::LessEqual), loc(1, 3), true, false)
    );
    assert_eq!(
        items[2],
        tok(TokenValue::Punct(Punct::LeftAngle), loc(1, 6), true, false)
    );
}

#[test]
fn maximal_munch_right_shift_assign() {
    let items = collect(">>=");
    assert_eq!(
        items[0],
        tok(
            TokenValue::Punct(Punct::RightShiftAssign),
            loc(1, 0),
            true,
            true
        )
    );
}

#[test]
fn two_character_operators() {
    let items = collect("&& || ^^ == != ++ --");
    assert_eq!(
        items[0],
        tok(TokenValue::Punct(Punct::LogicalAnd), loc(1, 0), true, true)
    );
    assert_eq!(
        items[1],
        tok(TokenValue::Punct(Punct::LogicalOr), loc(1, 3), true, false)
    );
    assert_eq!(
        items[2],
        tok(TokenValue::Punct(Punct::LogicalXor), loc(1, 6), true, false)
    );
    assert_eq!(
        items[3],
        tok(TokenValue::Punct(Punct::EqualEqual), loc(1, 9), true, false)
    );
    assert_eq!(
        items[4],
        tok(TokenValue::Punct(Punct::NotEqual), loc(1, 12), true, false)
    );
    assert_eq!(
        items[5],
        tok(TokenValue::Punct(Punct::Increment), loc(1, 15), true, false)
    );
    assert_eq!(
        items[6],
        tok(TokenValue::Punct(Punct::Decrement), loc(1, 18), true, false)
    );
}

#[test]
fn dot_between_identifiers_is_punctuation() {
    let items = collect("a.b");
    assert_eq!(
        items[1],
        tok(TokenValue::Punct(Punct::Dot), loc(1, 1), false, false)
    );
}

#[test]
fn end_of_input_synthesizes_newline() {
    let mut lexer = Lexer::new("x");
    assert_eq!(lexer.next(), Some(ident("x", loc(1, 0), true, true)));
    assert_eq!(
        lexer.next(),
        Some(tok(TokenValue::NewLine, loc(1, 1), false, false))
    );
    assert_eq!(lexer.next(), None);
    assert_eq!(lexer.next(), None);
}

#[test]
fn input_ending_in_newline_gets_no_extra_newline() {
    assert_eq!(
        collect("x\n"),
        vec![
            ident("x", loc(1, 0), true, true),
            tok(TokenValue::NewLine, loc(1, 1), false, false),
        ]
    );
}

#[test]
fn error_resilience_on_unexpected_character() {
    assert_eq!(
        collect("a @ b"),
        vec![
            ident("a", loc(1, 0), true, true),
            Err((PreprocessorError::UnexpectedCharacter, loc(1, 2))),
            ident("b", loc(1, 4), true, false),
            tok(TokenValue::NewLine, loc(1, 5), false, false),
        ]
    );
}

#[test]
fn hash_token_and_directive_line() {
    let items = collect("#version 460\n");
    assert_eq!(items[0], tok(TokenValue::Hash, loc(1, 0), true, true));
    assert_eq!(items[1], ident("version", loc(1, 1), false, false));
    assert_eq!(items[2], integer(460, true, loc(1, 9), true, false));
    assert_eq!(
        items[3],
        tok(TokenValue::NewLine, loc(1, 12), false, false)
    );
}

#[test]
fn leading_whitespace_and_start_of_line_flags() {
    let items = collect(" a b\nc");
    assert_eq!(items[0], ident("a", loc(1, 1), true, true));
    assert_eq!(items[1], ident("b", loc(1, 3), true, false));
    assert_eq!(items[2], tok(TokenValue::NewLine, loc(1, 4), false, false));
    assert_eq!(items[3], ident("c", loc(2, 0), true, true));
}

#[test]
fn rerunning_the_lexer_is_deterministic() {
    let source = "#define F(x) (x + 1.5f) // doc\nF(0x10);\n";
    assert_eq!(collect(source), collect(source));
}

#[test]
fn chars_and_location_normalizes_newlines() {
    let mut chars = CharsAndLocation::new("a\r\nb");
    assert_eq!(chars.next(), Some(('a', loc(1, 0))));
    assert_eq!(chars.next(), Some(('\n', loc(1, 1))));
    assert_eq!(chars.next(), Some(('b', loc(2, 0))));
    assert_eq!(chars.next(), None);
}

#[test]
fn skip_backslash_newline_deletes_pairs() {
    let mut chars = SkipBackslashNewline::new("a\\\nb");
    assert_eq!(chars.next(), Some(('a', loc(1, 0))));
    assert_eq!(chars.next(), Some(('b', loc(2, 0))));
    assert_eq!(chars.next(), None);
}

#[test]
fn consecutive_continuations_are_deleted_iteratively() {
    let mut chars = SkipBackslashNewline::new("a\\\n\\\n\\\nb");
    assert_eq!(chars.next(), Some(('a', loc(1, 0))));
    assert_eq!(chars.next(), Some(('b', loc(4, 0))));
    assert_eq!(chars.next(), None);
}

#[test]
fn replace_comments_emits_sentinel() {
    let mut chars = ReplaceComments::new("//x\ny");
    assert_eq!(chars.next(), Some((COMMENT_SENTINEL_VALUE, loc(1, 0))));
    assert_eq!(chars.next(), Some(('\n', loc(1, 3))));
    assert_eq!(chars.next(), Some(('y', loc(2, 0))));
    assert_eq!(chars.next(), None);
}

#[test]
fn replace_comments_keeps_plain_slash() {
    let mut chars = ReplaceComments::new("a/b");
    assert_eq!(chars.next(), Some(('a', loc(1, 0))));
    assert_eq!(chars.next(), Some(('/', loc(1, 1))));
    assert_eq!(chars.next(), Some(('b', loc(1, 2))));
    assert_eq!(chars.next(), None);
}

#[test]
fn token_value_from_punct() {
    assert_eq!(TokenValue::from(Punct::Comma), TokenValue::Punct(Punct::Comma));
}

#[test]
fn zero_literal() {
    let items = collect("0");
    assert_eq!(items[0], integer(0, true, loc(1, 0), true, true));
}

#[test]
fn hex_prefix_without_digits_is_overflow_error() {
    let items = collect("0x");
    assert_eq!(items[0], Err((PreprocessorError::IntegerOverflow, loc(1, 0))));
}

#[test]
fn identifier_with_digits_and_underscores() {
    let items = collect("_gl_Position2");
    assert_eq!(items[0], ident("_gl_Position2", loc(1, 0), true, true));
}

#[test]
fn brackets_and_delimiters() {
    let items = collect("(){}[];,:~?");
    let expected = [
        Punct::LeftParen,
        Punct::RightParen,
        Punct::LeftBrace,
        Punct::RightBrace,
        Punct::LeftBracket,
        Punct::RightBracket,
        Punct::Semicolon,
        Punct::Comma,
        Punct::Colon,
        Punct::Tilde,
        Punct::Question,
    ];
    for (i, p) in expected.iter().enumerate() {
        assert_eq!(
            items[i],
            tok(
                TokenValue::Punct(*p),
                loc(1, i as u32),
                i == 0,
                i == 0
            )
        );
    }
}

#[test]
fn compound_assignments() {
    let items = collect("+= -= *= /= %= &= |= ^=");
    let expected = [
        Punct::AddAssign,
        Punct::SubAssign,
        Punct::MulAssign,
        Punct::DivAssign,
        Punct::ModAssign,
        Punct::AndAssign,
        Punct::OrAssign,
        Punct::XorAssign,
    ];
    for (i, p) in expected.iter().enumerate() {
        assert_eq!(
            items[i],
            tok(
                TokenValue::Punct(*p),
                loc(1, 3 * i as u32),
                true,
                i == 0
            )
        );
    }
}

#[test]
fn line_comment_with_extra_slashes_is_one_comment() {
    assert_eq!(
        collect("///x\ny"),
        vec![
            tok(TokenValue::NewLine, loc(1, 4), true, true),
            ident("y", loc(2, 0), true, true),
            tok(TokenValue::NewLine, loc(2, 1), false, false),
        ]
    );
}

#[test]
fn hex_prefix_before_dot_reparses_as_decimal_float() {
    let items = collect("0x1.5");
    assert_eq!(
        items[0],
        tok(
            TokenValue::Float(Float {
                digits: "01.5".to_string(),
                width: 32,
            }),
            loc(1, 0),
            true,
            true
        )
    );
}

#[test]
fn lexer_tokens_can_be_cloned() {
    let items = collect("a 1u <<=");
    for item in &items {
        if let Ok(t) = item {
            assert_eq!(&t.clone(), t);
        }
    }
}

#[test]
fn directive_tokens_can_be_cloned() {
    let version = tk::Version {
        tokens: vec![tk::Token {
            value: tk::TokenValue::Ident("es".to_string()),
            location: loc(1, 9),
        }],
        is_first_directive: true,
        has_comments_before: false,
    };
    assert_eq!(version.clone(), version);
    let err = tk::PreprocessorError::UnexpectedToken(tk::TokenValue::Float(tk::Float {
        digits: "1.0".to_string(),
        width: 32,
    }));
    assert_eq!(err.clone(), err);
}
