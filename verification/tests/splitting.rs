use code_lexer::fence::FenceMatch;
use code_lexer::{CodeLexer, Notice, NoticeKind, Span};

fn pieces<'a>(text: &'a str, spans: &[Span]) -> Vec<&'a str> {
    spans.iter().map(|s| &text[s.0..s.1]).collect()
}

fn assert_partition(text: &str, spans: &[Span]) {
    let mut cursor = 0;
    for s in spans {
        assert_eq!(s.0, cursor);
        assert!(s.0 < s.1);
        cursor = s.1;
    }
    assert_eq!(cursor, text.len());
    assert_eq!(pieces(text, spans).concat(), text);
}

#[test]
fn no_code_blocks() {
    let text = "This is just plain text without code.";
    let lexer = CodeLexer::default();

    let splits = lexer.pre_tokenize(text);

    assert_eq!(splits.len(), 1);
    assert_eq!(&text[splits[0].0..splits[0].1], text);
}

#[test]
fn simple_code_block() {
    let text = "```python\ndef test(): pass\n```";
    let lexer = CodeLexer::default();

    let splits = lexer.pre_tokenize(text);

    // Should have at least: opening fence, code tokens, closing fence
    assert!(splits.len() >= 3);
}

#[test]
fn mixed_content() {
    let text = "Here is code:\n```python\nx = 1\n```\nMore text.";
    let lexer = CodeLexer::default();

    let splits = lexer.pre_tokenize(text);

    // Should split into: before, fence, code, fence, after
    assert!(splits.len() >= 4);
}

#[test]
fn simple_code_block_exact_spans() {
    let text = "```python\ndef test(): pass\n```";
    let splits = CodeLexer::default().pre_tokenize(text);
    assert_eq!(splits[0].0, 0);
    assert_eq!(
        pieces(text, &splits),
        vec!["```python\n", "def", " test", "(", ")", ":", " pass\n", "```"]
    );
    assert_eq!(
        splits,
        vec![(0, 10), (10, 13), (13, 18), (18, 19), (19, 20), (20, 21), (21, 27), (27, 30)]
    );
}

#[test]
fn mixed_content_exact_spans() {
    let text = "Here is code:\n```python\nx = 1\n```\nMore text.";
    let splits = CodeLexer::default().pre_tokenize(text);
    assert_eq!(
        pieces(text, &splits),
        vec!["Here is code:\n", "```python\n", "x", " =", " 1\n", "```", "\nMore text."]
    );
    assert_eq!(
        splits,
        vec![(0, 14), (14, 24), (24, 25), (25, 27), (27, 30), (30, 33), (33, 44)]
    );
    assert_partition(text, &splits);
}

#[test]
fn unrecognized_language_body_is_one_span() {
    let text = "```rust\nfn x(){}\n```";
    let splits = CodeLexer::default().pre_tokenize(text);
    assert_eq!(splits, vec![(0, 8), (8, 17), (17, 20)]);
    assert_eq!(&text[splits[1].0..splits[1].1], "fn x(){}\n");
}

#[test]
fn configured_language_without_lexer_body_is_one_span() {
    let text = "```rust\nfn x(){}\n```";
    let lexer = CodeLexer::new(vec!["rust".to_string()]);
    assert_eq!(lexer.pre_tokenize(text), vec![(0, 8), (8, 17), (17, 20)]);
}

#[test]
fn python_is_left_whole_where_it_is_not_configured() {
    let text = "```python\nx = 1\n```";
    let lexer = CodeLexer::new(vec!["rust".to_string()]);
    assert_eq!(lexer.pre_tokenize(text), vec![(0, 10), (10, 16), (16, 19)]);
}

#[test]
fn tag_is_matched_in_any_case() {
    let text = "```PyThOn\nx = 1\n```";
    let splits = CodeLexer::default().pre_tokenize(text);
    assert_eq!(
        pieces(text, &splits),
        vec!["```PyThOn\n", "x", " =", " 1\n", "```"]
    );
    let short = "```PY\nx\n```";
    assert_eq!(
        pieces(short, &CodeLexer::default().pre_tokenize(short)),
        vec!["```PY\n", "x\n", "```"]
    );
}

#[test]
fn empty_text_gives_no_span() {
    assert_eq!(CodeLexer::default().pre_tokenize(""), Vec::<Span>::new());
}

#[test]
fn empty_tag_is_not_lexed() {
    let text = "```\nx = 1\n```";
    let lexer = CodeLexer::new(vec!["".to_string(), "python".to_string()]);
    assert_eq!(lexer.pre_tokenize(text), vec![(0, 4), (4, 10), (10, 13)]);
}

#[test]
fn empty_body_gives_no_span() {
    let text = "```py\n```";
    assert_eq!(CodeLexer::default().pre_tokenize(text), vec![(0, 6), (6, 9)]);
    let other = "```rust\n```";
    assert_eq!(CodeLexer::default().pre_tokenize(other), vec![(0, 8), (8, 11)]);
}

#[test]
fn unterminated_fence_is_plain_text() {
    let text = "before\n```python\nx = 1\n";
    assert_eq!(CodeLexer::default().pre_tokenize(text), vec![(0, text.len())]);
}

#[test]
fn tag_with_other_bytes_opens_no_fence() {
    let text = "```c++\ncode```";
    assert_eq!(CodeLexer::default().pre_tokenize(text), vec![(0, text.len())]);
    let spaced = "``` python\nx\n```";
    assert_eq!(CodeLexer::default().pre_tokenize(spaced), vec![(0, spaced.len())]);
    let windows = "```python\r\nx\r\n```";
    assert_eq!(CodeLexer::default().pre_tokenize(windows), vec![(0, windows.len())]);
}

#[test]
fn closing_marker_of_a_refused_opening_can_open_a_fence() {
    let text = "```c++\nint x;\n```\nrest```tail";
    let splits = CodeLexer::default().pre_tokenize(text);
    assert_eq!(
        pieces(text, &splits),
        vec!["```c++\nint x;\n", "```\n", "rest", "```", "tail"]
    );
}

#[test]
fn body_ends_at_the_first_three_backticks() {
    let text = "```py\ns = '```'\n```";
    let splits = CodeLexer::default().pre_tokenize(text);
    assert_eq!(splits[0], (0, 6));
    assert_eq!(&text[splits[splits.len() - 2].0..splits[splits.len() - 2].1], "```");
    assert_eq!(&text[splits[splits.len() - 1].0..splits[splits.len() - 1].1], "'\n```");
    assert_partition(text, &splits);
}

#[test]
fn fourth_backtick_stays_outside() {
    let text = "```rust\nx````";
    assert_eq!(
        CodeLexer::default().pre_tokenize(text),
        vec![(0, 8), (8, 9), (9, 12), (12, 13)]
    );
}

#[test]
fn two_fences_in_a_row() {
    let text = "```py\na\n``````py\nb\n```";
    let splits = CodeLexer::default().pre_tokenize(text);
    assert_eq!(
        pieces(text, &splits),
        vec!["```py\n", "a\n", "```", "```py\n", "b\n", "```"]
    );
}

#[test]
fn code_that_does_not_lex_is_one_span() {
    let text = "```python\ns = 'abc\n```";
    assert_eq!(
        pieces(text, &CodeLexer::default().pre_tokenize(text)),
        vec!["```python\n", "s = 'abc\n", "```"]
    );
    let unbalanced = "```python\nf(1\n```";
    assert_eq!(
        pieces(unbalanced, &CodeLexer::default().pre_tokenize(unbalanced)),
        vec!["```python\n", "f(1\n", "```"]
    );
}

#[test]
fn whitespace_behind_the_last_token_is_covered() {
    let text = "```python\nx = 1\n   \n```";
    let splits = CodeLexer::default().pre_tokenize(text);
    assert_eq!(
        pieces(text, &splits),
        vec!["```python\n", "x", " =", " 1\n", "   \n", "```"]
    );
}

#[test]
fn whitespace_before_the_line_end_goes_to_the_next_span() {
    let text = "```python\nx = 1  \ny\n```";
    let splits = CodeLexer::default().pre_tokenize(text);
    assert_eq!(
        pieces(text, &splits),
        vec!["```python\n", "x", " =", " 1 ", " \ny\n", "```"]
    );
    assert_partition(text, &splits);
}

#[test]
fn code_without_final_line_end() {
    let text = "```python\nx = 1```";
    let splits = CodeLexer::default().pre_tokenize(text);
    assert_eq!(
        pieces(text, &splits),
        vec!["```python\n", "x", " =", " 1", "```"]
    );
}

#[test]
fn indented_code_and_non_ascii_text() {
    let text = "Voilà — du code :\n```python\ndef f(x):\n    return 'é' + x\n```\nfin ✓";
    let splits = CodeLexer::default().pre_tokenize(text);
    assert_partition(text, &splits);
    assert_eq!(
        pieces(text, &splits),
        vec![
            "Voilà — du code :\n",
            "```python\n",
            "def",
            " f",
            "(",
            "x",
            ")",
            ":\n",
            "    ",
            "return",
            " 'é'",
            " +",
            " x\n",
            "```",
            "\nfin ✓"
        ]
    );
}

#[test]
fn spans_partition_every_sample() {
    let samples = [
        "",
        "`",
        "```",
        "```\n```",
        "``````",
        "```\n``````\n```",
        "text ```py\nimport os\n``` and ```js\nlet x;\n``` end",
        "```python\n\n\nx = (1,\n  2)\n\n```\n",
        "```python\n\tif x:\n\t\ty = 2\n  z\n```",
        "```python\n# only a comment\n```",
        "```py\n\u{feff}x = 1\n```",
        "```py\nmatch x:\n    case _: pass\n```",
        "```py\nx = 1\r\ny = 2\r\n```",
    ];
    let lexer = CodeLexer::default();
    for text in samples {
        let splits = lexer.pre_tokenize(text);
        assert_partition(text, &splits);
    }
}

#[test]
fn spans_ascend_and_hold_bytes() {
    let text = "a```py\nx=1\n```b```rust\n```c";
    let splits = CodeLexer::default().pre_tokenize(text);
    for pair in splits.windows(2) {
        assert!(pair[0].0 < pair[1].0);
        assert!(pair[0].1 <= pair[1].0);
    }
    for s in &splits {
        assert_ne!(s.0, s.1);
    }
}

#[test]
fn splitting_twice_gives_the_same_spans() {
    let text = "Here is code:\n```python\nx = 1\n```\nMore text.";
    let lexer = CodeLexer::default();
    let again = CodeLexer::new(vec!["python".to_string(), "py".to_string()]);
    assert_eq!(lexer.pre_tokenize(text), lexer.pre_tokenize(text));
    assert_eq!(lexer.pre_tokenize(text), again.pre_tokenize(text));
}

#[test]
fn notice_for_a_configured_language_without_lexer() {
    let text = "a\n```Rust\nfn x(){}\n```\n```go\n```";
    let lexer = CodeLexer::new(vec!["rust".to_string(), "python".to_string()]);
    let (spans, notices) = lexer.pre_tokenize_with_notices(text);
    assert_eq!(spans, lexer.pre_tokenize(text));
    assert_eq!(
        notices,
        vec![Notice {
            kind: NoticeKind::Unsupported,
            fence: FenceMatch { start: 2, body_start: 10, body_end: 19 },
        }]
    );
}

#[test]
fn notice_for_code_that_does_not_lex() {
    let text = "```py\nx = 1\n```\n```python\ns = 'abc\n```";
    let (spans, notices) = CodeLexer::default().pre_tokenize_with_notices(text);
    assert_eq!(
        pieces(text, &spans),
        vec!["```py\n", "x", " =", " 1\n", "```", "\n", "```python\n", "s = 'abc\n", "```"]
    );
    assert_eq!(
        notices,
        vec![Notice {
            kind: NoticeKind::LexFailure,
            fence: FenceMatch { start: 16, body_start: 26, body_end: 35 },
        }]
    );
}

#[test]
fn no_notice_where_nothing_is_configured_or_all_is_cut() {
    let lexer = CodeLexer::default();
    assert!(lexer.pre_tokenize_with_notices("plain").1.is_empty());
    assert!(lexer.pre_tokenize_with_notices("```rust\nx\n```").1.is_empty());
    assert!(lexer.pre_tokenize_with_notices("```\nx\n```").1.is_empty());
    assert!(lexer.pre_tokenize_with_notices("```python\nx\n```").1.is_empty());
}
