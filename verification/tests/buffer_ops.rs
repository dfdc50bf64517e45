use ide::buffer::{
    backspace, encode_char, insert_char, insert_str, join_lines, move_down, move_left, move_right,
    move_up, newline, split_lines_vec, Cursor, EditorState,
};

fn state(lines: Vec<&str>, line: usize, col: usize) -> EditorState {
    EditorState {
        lines: lines.into_iter().map(|s| s.as_bytes().to_vec()).collect(),
        cursor: Cursor { line, col },
    }
}

fn texts(s: &EditorState) -> Vec<String> {
    s.lines
        .iter()
        .map(|l| String::from_utf8(l.clone()).unwrap())
        .collect()
}

fn check_invariant(s: &EditorState) {
    assert!(s.lines.len() >= 1);
    assert!(s.cursor.line < s.lines.len());
    assert!(s.cursor.col <= s.lines[s.cursor.line].len());
}

#[test]
fn default_state_is_one_empty_line() {
    let s = EditorState::default();
    assert_eq!(texts(&s), vec![String::new()]);
    assert_eq!(s.cursor, Cursor { line: 0, col: 0 });
    check_invariant(&s);
}

#[test]
fn insert_char_advances_by_one_ascii_unit() {
    let mut s = EditorState::default();
    insert_char(&mut s, 'a');
    insert_char(&mut s, 'b');
    assert_eq!(texts(&s), vec!["ab".to_string()]);
    assert_eq!(s.cursor, Cursor { line: 0, col: 2 });
}

#[test]
fn insert_char_multibyte_advances_by_encoding_width() {
    let mut s = EditorState::default();
    insert_char(&mut s, 'é');
    assert_eq!(s.cursor.col, 2);
    insert_char(&mut s, '€');
    assert_eq!(s.cursor.col, 5);
    assert_eq!(s.lines[0], "é€".as_bytes().to_vec());
}

#[test]
fn encode_char_matches_std_utf8() {
    for c in ['a', '\u{7f}', 'é', '\u{7ff}', 'ह', '\u{ffff}', '😀', '\u{10ffff}'] {
        let mut buf = [0u8; 4];
        let expected = c.encode_utf8(&mut buf).as_bytes().to_vec();
        assert_eq!(encode_char(c), expected);
    }
}

#[test]
fn insert_str_splices_whole_string() {
    let mut s = state(vec!["xy"], 0, 1);
    insert_str(&mut s, "abc");
    assert_eq!(texts(&s), vec!["xabcy".to_string()]);
    assert_eq!(s.cursor, Cursor { line: 0, col: 4 });
}

#[test]
fn insert_char_on_missing_line_appends_empty_line() {
    let mut s = state(vec!["ab"], 5, 3);
    insert_char(&mut s, 'z');
    assert_eq!(texts(&s), vec!["ab".to_string(), "z".to_string()]);
    assert_eq!(s.cursor, Cursor { line: 1, col: 1 });
    check_invariant(&s);
}

#[test]
fn backspace_mid_line_removes_previous_unit() {
    let mut s = state(vec!["abc"], 0, 2);
    backspace(&mut s);
    assert_eq!(texts(&s), vec!["ac".to_string()]);
    assert_eq!(s.cursor, Cursor { line: 0, col: 1 });
}

#[test]
fn backspace_at_line_start_merges_lines() {
    // line count drops by one, merged length is the sum, cursor sits at the
    // former end of the previous line
    let mut s = state(vec!["ab", "cde"], 1, 0);
    backspace(&mut s);
    assert_eq!(texts(&s), vec!["abcde".to_string()]);
    assert_eq!(s.lines[0].len(), 2 + 3);
    assert_eq!(s.cursor, Cursor { line: 0, col: 2 });
    check_invariant(&s);
}

#[test]
fn backspace_at_document_start_is_noop() {
    let mut s = state(vec!["ab", "cd"], 0, 0);
    backspace(&mut s);
    assert_eq!(texts(&s), vec!["ab".to_string(), "cd".to_string()]);
    assert_eq!(s.cursor, Cursor { line: 0, col: 0 });
}

#[test]
fn newline_splits_line_at_cursor() {
    // line count grows by one, prefix stays, suffix becomes the next line,
    // cursor moves to the start of the new line
    let mut s = state(vec!["hello world"], 0, 5);
    newline(&mut s);
    assert_eq!(texts(&s), vec!["hello".to_string(), " world".to_string()]);
    assert_eq!(s.cursor, Cursor { line: 1, col: 0 });
    check_invariant(&s);
}

#[test]
fn newline_at_line_end_appends_empty_line() {
    let mut s = state(vec!["ab"], 0, 2);
    newline(&mut s);
    assert_eq!(texts(&s), vec!["ab".to_string(), "".to_string()]);
    assert_eq!(s.cursor, Cursor { line: 1, col: 0 });
}

#[test]
fn move_left_wraps_to_previous_line_end() {
    let mut s = state(vec!["abc", "d"], 1, 0);
    move_left(&mut s);
    assert_eq!(s.cursor, Cursor { line: 0, col: 3 });
    let mut t = state(vec!["abc"], 0, 0);
    move_left(&mut t);
    assert_eq!(t.cursor, Cursor { line: 0, col: 0 });
}

#[test]
fn move_right_wraps_to_next_line_start() {
    let mut s = state(vec!["ab", "cd"], 0, 2);
    move_right(&mut s);
    assert_eq!(s.cursor, Cursor { line: 1, col: 0 });
    let mut t = state(vec!["ab"], 0, 2);
    move_right(&mut t);
    assert_eq!(t.cursor, Cursor { line: 0, col: 2 });
}

#[test]
fn move_up_down_clamp_column_to_target_line() {
    let mut s = state(vec!["a", "longer", "bc"], 1, 6);
    move_up(&mut s);
    assert_eq!(s.cursor, Cursor { line: 0, col: 1 });
    let mut t = state(vec!["a", "longer", "bc"], 1, 6);
    move_down(&mut t);
    assert_eq!(t.cursor, Cursor { line: 2, col: 2 });
}

#[test]
fn moves_clamp_out_of_range_cursor() {
    let mut s = state(vec!["ab"], 7, 9);
    move_left(&mut s);
    check_invariant(&s);
    assert_eq!(s.cursor, Cursor { line: 0, col: 1 });
}

#[test]
fn invariant_holds_after_long_mixed_sequence() {
    // a long pseudo-random walk over all operations; the cursor must stay in
    // range after every step
    let mut s = EditorState::default();
    let mut x: u64 = 0x2545f491_4f6c_dd1d;
    for step in 0..3000u64 {
        x ^= x << 13;
        x ^= x >> 7;
        x ^= x << 17;
        match x % 8 {
            0 => insert_char(&mut s, (b'a' + (step % 26) as u8) as char),
            1 => insert_char(&mut s, 'é'),
            2 => insert_str(&mut s, "word "),
            3 => backspace(&mut s),
            4 => newline(&mut s),
            5 => move_left(&mut s),
            6 => move_right(&mut s),
            _ => {
                if step % 2 == 0 {
                    move_up(&mut s)
                } else {
                    move_down(&mut s)
                }
            }
        }
        check_invariant(&s);
    }
}

#[test]
fn split_join_round_trip_reproduces_text() {
    for text in [
        "",
        "a",
        "\n",
        "a\nb",
        "a\nb\n",
        "\n\n\n",
        "line one\nline two\nline three",
        "trailing\n",
    ] {
        let lines = split_lines_vec(text.as_bytes());
        let back = join_lines(&lines);
        assert_eq!(back, text.as_bytes().to_vec(), "round trip failed for {text:?}");
    }
}

#[test]
fn split_lines_matches_expected_decomposition() {
    let lines = split_lines_vec(b"ab\ncd\n");
    assert_eq!(
        lines,
        vec![b"ab".to_vec(), b"cd".to_vec(), b"".to_vec()]
    );
    let empty = split_lines_vec(b"");
    assert_eq!(empty, vec![b"".to_vec()]);
}

#[test]
fn join_lines_inserts_single_separator() {
    let joined = join_lines(&vec![b"ab".to_vec(), b"".to_vec(), b"c".to_vec()]);
    assert_eq!(joined, b"ab\n\nc".to_vec());
}

#[test]
fn backspace_clamps_out_of_range_cursor() {
    // column past the line end: clamped to the end, then deletes there
    let mut s = state(vec!["abc"], 0, 9);
    backspace(&mut s);
    assert_eq!(texts(&s), vec!["ab".to_string()]);
    assert_eq!(s.cursor, Cursor { line: 0, col: 2 });
    // line past the document end: clamped to the last line
    let mut t = state(vec!["ab", "cd"], 9, 0);
    backspace(&mut t);
    assert_eq!(texts(&t), vec!["abcd".to_string()]);
    check_invariant(&t);
}

#[test]
fn newline_clamps_out_of_range_column() {
    let mut s = state(vec!["ab"], 0, 9);
    newline(&mut s);
    assert_eq!(texts(&s), vec!["ab".to_string(), "".to_string()]);
    assert_eq!(s.cursor, Cursor { line: 1, col: 0 });
}

#[test]
fn insert_char_clamps_out_of_range_column() {
    let mut s = state(vec!["ab"], 0, 9);
    insert_char(&mut s, 'z');
    assert_eq!(texts(&s), vec!["abz".to_string()]);
    assert_eq!(s.cursor, Cursor { line: 0, col: 3 });
}
