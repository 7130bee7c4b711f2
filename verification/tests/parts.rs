use code_lexer::fence::{find_fence, is_word, FenceMatch};
use code_lexer::language::{
    backend_for, eq_ignore_ascii_case, names_language, resolve, to_ascii_lower, Backend,
    Resolution,
};
use code_lexer::python::{
    lex_python_code, merge_newlines, stitch, token_spans, try_lex_python, try_token_spans,
    validate_tokens, Token, TokenKind,
};
use code_lexer::span::{drop_empty, whole_span};
use code_lexer::text::slice_str;
use code_lexer::{default_languages, CodeLexer};

fn other(start: usize, end: usize) -> Token {
    Token { kind: TokenKind::Other, start, end }
}

fn newline(start: usize, end: usize) -> Token {
    Token { kind: TokenKind::Newline, start, end }
}

#[test]
fn default_languages_are_python_and_py() {
    assert_eq!(default_languages(), vec!["python".to_string(), "py".to_string()]);
    assert_eq!(CodeLexer::default().languages, default_languages());
}

#[test]
fn new_keeps_the_languages() {
    let lexer = CodeLexer::new(vec!["Rust".to_string(), "go".to_string()]);
    assert_eq!(lexer.languages, vec!["Rust".to_string(), "go".to_string()]);
    assert!(CodeLexer::new(Vec::new()).languages.is_empty());
}

#[test]
fn supported_language_ignores_ascii_case() {
    let lexer = CodeLexer::default();
    assert!(lexer.is_supported_language("python"));
    assert!(lexer.is_supported_language("PYTHON"));
    assert!(lexer.is_supported_language("Py"));
    assert!(!lexer.is_supported_language("pyt"));
    assert!(!lexer.is_supported_language("rust"));
    assert!(!lexer.is_supported_language(""));
    assert!(!CodeLexer::new(Vec::new()).is_supported_language("python"));
    assert!(CodeLexer::new(vec!["RUST".to_string()]).is_supported_language("rust"));
}

#[test]
fn case_is_folded_for_ascii_letters_only() {
    assert_eq!(to_ascii_lower(b'A'), b'a');
    assert_eq!(to_ascii_lower(b'Z'), b'z');
    assert_eq!(to_ascii_lower(b'a'), b'a');
    assert_eq!(to_ascii_lower(b'@'), b'@');
    assert_eq!(to_ascii_lower(b'['), b'[');
    assert_eq!(to_ascii_lower(0xc9), 0xc9);
    assert!(eq_ignore_ascii_case(b"PyThon", b"pYtHON"));
    assert!(eq_ignore_ascii_case(b"", b""));
    assert!(!eq_ignore_ascii_case(b"py", b"pyt"));
    assert!(!eq_ignore_ascii_case(b"p_", b"p?"));
    assert!(!eq_ignore_ascii_case("é".as_bytes(), "É".as_bytes()));
    assert!(names_language(&default_languages(), b"PY"));
    assert!(!names_language(&default_languages(), b"p"));
}

#[test]
fn tags_resolve_to_lexer_unsupported_or_unconfigured() {
    let languages = vec!["python".to_string(), "rust".to_string()];
    assert_eq!(resolve(&languages, b"python"), Resolution::Backend(Backend::Python));
    assert_eq!(resolve(&languages, b"Python"), Resolution::Backend(Backend::Python));
    assert_eq!(resolve(&languages, b"RUST"), Resolution::Unsupported);
    assert_eq!(resolve(&languages, b"py"), Resolution::Unconfigured);
    assert_eq!(resolve(&languages, b"go"), Resolution::Unconfigured);
    assert_eq!(resolve(&languages, b""), Resolution::Unconfigured);
    assert_eq!(resolve(&vec!["".to_string()], b""), Resolution::Unconfigured);
    assert_eq!(backend_for(b"PY"), Some(Backend::Python));
    assert_eq!(backend_for(b"python"), Some(Backend::Python));
    assert_eq!(backend_for(b"python3"), None);
    assert_eq!(backend_for(b""), None);
    let lexer = CodeLexer::new(languages);
    assert_eq!(lexer.resolve("rust"), Resolution::Unsupported);
    assert_eq!(lexer.resolve("PYTHON"), Resolution::Backend(Backend::Python));
}

#[test]
fn word_bytes_are_letters_digits_and_underscore() {
    for b in 0..=255u8 {
        let expected = b.is_ascii_alphanumeric() || b == b'_';
        assert_eq!(is_word(b), expected);
    }
}

#[test]
fn fence_is_found_with_its_parts() {
    let text = b"ab```py\nx = 1\n```cd";
    let m = find_fence(text, 0).unwrap();
    assert_eq!(m, FenceMatch { start: 2, body_start: 8, body_end: 14 });
    assert_eq!(m.whole(text), (2, 17));
    assert_eq!(m.open_marker(), (2, 8));
    assert_eq!(m.tag(text), (5, 7));
    assert_eq!(m.body(), (8, 14));
    assert_eq!(m.close_marker(text), (14, 17));
    assert_eq!(find_fence(text, 2), Some(m));
    assert_eq!(find_fence(text, 3), None);
    assert_eq!(find_fence(text, 17), None);
    assert_eq!(find_fence(text, 400), None);
}

#[test]
fn fence_search_goes_on_behind_a_refused_opening() {
    assert_eq!(
        find_fence(b"```a b\n```\nx```", 0),
        Some(FenceMatch { start: 7, body_start: 11, body_end: 12 })
    );
    assert_eq!(
        find_fence(b"````py\n```", 0),
        Some(FenceMatch { start: 1, body_start: 7, body_end: 7 })
    );
    assert_eq!(find_fence(b"```py\n``", 0), None);
    assert_eq!(find_fence(b"```py", 0), None);
    assert_eq!(find_fence(b"", 0), None);
    assert_eq!(
        find_fence(b"```\n```", 0),
        Some(FenceMatch { start: 0, body_start: 4, body_end: 4 })
    );
}

#[test]
fn tokens_out_of_order_are_refused() {
    assert!(validate_tokens(&vec![], 0));
    assert!(validate_tokens(&vec![other(0, 1), other(1, 1), newline(1, 2)], 2));
    assert!(!validate_tokens(&vec![other(0, 3)], 2));
    assert!(!validate_tokens(&vec![other(2, 1)], 5));
    assert!(!validate_tokens(&vec![other(0, 2), other(1, 3)], 5));
    assert!(!validate_tokens(&vec![other(3, 4), other(0, 1)], 5));
}

#[test]
fn line_end_is_added_to_the_span_before_it() {
    let tokens = vec![
        other(0, 1),
        newline(1, 2),
        other(2, 3),
        newline(5, 7),
        Token { kind: TokenKind::EndOfFile, start: 7, end: 7 },
    ];
    assert_eq!(merge_newlines(&tokens, 10, 7), vec![(10, 12), (12, 15)]);
}

#[test]
fn line_end_with_no_span_before_it_is_dropped() {
    let tokens = vec![newline(0, 1), other(1, 2), newline(2, 2)];
    assert_eq!(merge_newlines(&tokens, 0, 2), vec![(1, 2)]);
    assert_eq!(merge_newlines(&vec![newline(0, 1)], 3, 1), Vec::<(usize, usize)>::new());
}

#[test]
fn stitch_closes_gaps_and_covers_the_rest() {
    assert_eq!(
        stitch(&vec![(5, 7), (9, 12)], 3, 15),
        vec![(3, 7), (7, 12), (12, 15)]
    );
    assert_eq!(stitch(&vec![(3, 7), (7, 15)], 3, 15), vec![(3, 7), (7, 15)]);
    assert_eq!(stitch(&vec![], 3, 15), vec![(3, 15)]);
    assert_eq!(stitch(&vec![], 3, 3), Vec::<(usize, usize)>::new());
    assert_eq!(stitch(&vec![(4, 4), (4, 6)], 4, 6), vec![(4, 4), (4, 6)]);
}

#[test]
fn stitch_leaves_an_early_start_alone() {
    assert_eq!(stitch(&vec![(5, 9), (7, 12)], 5, 12), vec![(5, 9), (7, 12)]);
}

#[test]
fn token_spans_fall_back_to_the_whole_body() {
    assert_eq!(token_spans(&None, 4, 6), vec![(4, 10)]);
    assert_eq!(token_spans(&Some(vec![other(0, 9)]), 4, 6), vec![(4, 10)]);
    assert_eq!(token_spans(&Some(vec![other(3, 5), other(1, 2)]), 4, 6), vec![(4, 10)]);
    assert_eq!(
        token_spans(&Some(vec![other(1, 2), newline(2, 3), other(4, 5)]), 4, 6),
        vec![(4, 7), (7, 9), (9, 10)]
    );
    assert_eq!(token_spans(&Some(vec![]), 4, 0), Vec::<(usize, usize)>::new());
}

#[test]
fn empty_spans_are_dropped_in_order() {
    assert_eq!(
        drop_empty(&vec![(0, 0), (0, 3), (3, 3), (3, 4), (4, 4)]),
        vec![(0, 3), (3, 4)]
    );
    assert_eq!(drop_empty(&vec![(5, 2)]), Vec::<(usize, usize)>::new());
}

#[test]
fn python_code_is_cut_at_its_tokens() {
    assert_eq!(
        lex_python_code("x = 1\n", 24),
        vec![(24, 25), (25, 27), (27, 30)]
    );
    let lexer = CodeLexer::default();
    assert_eq!(lexer.lex_python("x = 1\n", 24), vec![(24, 25), (25, 27), (27, 30)]);
    assert_eq!(lexer.lex_python("", 7), Vec::<(usize, usize)>::new());
    assert_eq!(lexer.lex_python("$", 7), vec![(7, 8)]);
}

#[test]
fn lex_code_lexes_configured_languages_with_a_lexer() {
    let lexer = CodeLexer::default();
    assert_eq!(lexer.lex_code("Python", "a+b", 0), vec![(0, 1), (1, 2), (2, 3)]);
    assert_eq!(lexer.lex_code("py", "a+b", 2), vec![(2, 3), (3, 4), (4, 5)]);
    assert_eq!(lexer.lex_code("python", "x = 1\n", 24), vec![(24, 25), (25, 27), (27, 30)]);
}

#[test]
fn lex_code_leaves_unconfigured_tags_whole() {
    let none = CodeLexer::new(Vec::new());
    assert_eq!(none.lex_code("python", "x = 1\n", 24), vec![(24, 30)]);
    assert_eq!(none.lex_code("Python", "a+b", 0), vec![(0, 3)]);
    assert_eq!(none.lex_code("py", "a+b", 2), vec![(2, 5)]);
    let only_python = CodeLexer::new(vec!["python".to_string()]);
    assert_eq!(only_python.lex_code("py", "a+b", 2), vec![(2, 5)]);
    assert_eq!(only_python.lex_code("PYTHON", "a+b", 2), vec![(2, 3), (3, 4), (4, 5)]);
    let lexer = CodeLexer::default();
    assert_eq!(lexer.lex_code("rust", "a+b", 2), vec![(2, 5)]);
    assert_eq!(lexer.lex_code("", "a+b", 2), vec![(2, 5)]);
    let with_empty = CodeLexer::new(vec!["".to_string(), "python".to_string()]);
    assert_eq!(with_empty.lex_code("", "a+b", 2), vec![(2, 5)]);
}

#[test]
fn lex_code_leaves_configured_languages_without_lexer_whole() {
    let lexer = CodeLexer::new(vec!["rust".to_string(), "python".to_string()]);
    assert_eq!(lexer.lex_code("rust", "fn x(){}", 8), vec![(8, 16)]);
    assert_eq!(lexer.lex_code("Rust", "", 8), vec![(8, 8)]);
}

#[test]
fn string_is_cut_between_boundaries() {
    let text = "é\ńx`";
    assert_eq!(slice_str(text, 3, 6), "́x");
    assert_eq!(slice_str(text, 0, 0), "");
    assert_eq!(slice_str(text, 0, text.len()), text);
}

#[test]
fn splitters_are_equal_by_their_languages() {
    assert_eq!(CodeLexer::default(), CodeLexer::new(default_languages()));
    assert_eq!(CodeLexer::new(Vec::new()), CodeLexer::new(Vec::new()));
    assert_ne!(CodeLexer::default(), CodeLexer::new(vec!["python".to_string()]));
    assert_ne!(
        CodeLexer::default(),
        CodeLexer::new(vec!["py".to_string(), "python".to_string()])
    );
    assert_ne!(
        CodeLexer::default(),
        CodeLexer::new(vec!["Python".to_string(), "py".to_string()])
    );
    assert_eq!(CodeLexer::default().clone(), CodeLexer::default());
}

#[test]
fn unusable_answers_give_no_spans() {
    assert_eq!(try_token_spans(&None, 4, 6), None);
    assert_eq!(try_token_spans(&Some(vec![other(0, 9)]), 4, 6), None);
    assert_eq!(
        try_token_spans(&Some(vec![other(1, 2), other(2, 6)]), 4, 6),
        Some(vec![(4, 6), (6, 10)])
    );
    assert_eq!(try_token_spans(&Some(vec![]), 4, 6), Some(vec![(4, 10)]));
    assert_eq!(try_lex_python("f(", 0), None);
    assert_eq!(try_lex_python("f()", 5), Some(vec![(5, 6), (6, 7), (7, 8)]));
    assert_eq!(try_lex_python("  \n", 5), Some(vec![(5, 8)]));
}

#[test]
fn whole_span_is_one_span() {
    assert_eq!(whole_span(3, 9), vec![(3, 9)]);
    assert_eq!(whole_span(3, 3), vec![(3, 3)]);
}
