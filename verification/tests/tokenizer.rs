use vc::token::{netpbm_get_token, read_tokens};

fn texts(tokens: &[String]) -> Vec<&str> {
    tokens.iter().map(|t| t.as_str()).collect()
}

#[test]
fn header_with_comment_gives_four_tokens_and_sample_offset() {
    let mut source = b"P5\n# comment\n10 20\n255\n".to_vec();
    let offset = source.len();
    source.extend_from_slice(&[7, 8, 9, 32, 35, 10]);
    let (tokens, consumed) = netpbm_get_token(&source);
    assert_eq!(texts(&tokens), vec!["P5", "10", "20", "255"]);
    assert_eq!(consumed, 23);
    assert_eq!(consumed, offset);
    assert_eq!(source[consumed], 7);
}

#[test]
fn comment_inside_a_token_ends_the_token() {
    let (tokens, consumed) = netpbm_get_token(b"ab#comment\ncd 255");
    assert_eq!(texts(&tokens), vec!["ab", "cd", "255"]);
    assert_eq!(consumed, 17);
}

#[test]
fn malformed_dimension_is_still_a_token() {
    let (tokens, consumed) = netpbm_get_token(b"P5 ten 20 255");
    assert_eq!(texts(&tokens), vec!["P5", "ten", "20", "255"]);
    assert_eq!(consumed, 13);
}

#[test]
fn empty_source_gives_no_token() {
    let (tokens, consumed) = netpbm_get_token(b"");
    assert!(tokens.is_empty());
    assert_eq!(consumed, 0);
}

#[test]
fn blank_source_is_consumed_whole() {
    let (tokens, consumed) = netpbm_get_token(b" \t\r\n # nothing here");
    assert!(tokens.is_empty());
    assert_eq!(consumed, 19);
}

#[test]
fn short_header_gives_short_list() {
    let (tokens, consumed) = netpbm_get_token(b"P6 3");
    assert_eq!(texts(&tokens), vec!["P6", "3"]);
    assert_eq!(consumed, 4);
}

#[test]
fn scan_stops_right_behind_the_fourth_token() {
    let (tokens, consumed) = netpbm_get_token(b"P6 1 2 255\n\n\n rest");
    assert_eq!(texts(&tokens), vec!["P6", "1", "2", "255"]);
    assert_eq!(consumed, 11);
}

#[test]
fn fifth_token_is_left_alone() {
    let (tokens, consumed) = netpbm_get_token(b"a b c d e f");
    assert_eq!(texts(&tokens), vec!["a", "b", "c", "d"]);
    assert_eq!(consumed, 8);
}

#[test]
fn comment_behind_the_last_token_is_consumed_with_its_line() {
    let (tokens, consumed) = netpbm_get_token(b"P5 1 1 255#max\nXY");
    assert_eq!(texts(&tokens), vec!["P5", "1", "1", "255"]);
    assert_eq!(consumed, 15);
}

#[test]
fn comment_without_line_feed_runs_to_the_end() {
    let (tokens, consumed) = netpbm_get_token(b"P5 7#no end");
    assert_eq!(texts(&tokens), vec!["P5", "7"]);
    assert_eq!(consumed, 11);
}

#[test]
fn all_four_white_space_bytes_separate() {
    let (tokens, consumed) = netpbm_get_token(b"a b\tc\rd\ne");
    assert_eq!(texts(&tokens), vec!["a", "b", "c", "d"]);
    assert_eq!(consumed, 8);
}

#[test]
fn form_feed_and_vertical_tab_are_token_bytes() {
    let (tokens, consumed) = netpbm_get_token(b"a\x0cb c\x0bd");
    assert_eq!(texts(&tokens), vec!["a\u{c}b", "c\u{b}d"]);
    assert_eq!(consumed, 7);
}

#[test]
fn several_comment_lines_between_tokens() {
    let (tokens, consumed) = netpbm_get_token(b"#one\n#two\nP4 # three\n 8\n#four\n2\n\xff");
    assert_eq!(texts(&tokens), vec!["P4", "8", "2", "\u{fffd}"]);
    assert_eq!(consumed, 33);
}

#[test]
fn bytes_that_are_no_utf8_become_replacement_characters() {
    let (tokens, consumed) = netpbm_get_token(b"P\xff4 \xc3\xa9 x");
    assert_eq!(texts(&tokens), vec!["P\u{fffd}4", "\u{e9}", "x"]);
    assert_eq!(consumed, 8);
}

#[test]
fn read_tokens_keeps_to_its_limit() {
    let source = b"P4 16 2\n\x23\x0a";
    let (tokens, consumed) = read_tokens(source, 0, 3);
    assert_eq!(tokens, vec![b"P4".to_vec(), b"16".to_vec(), b"2".to_vec()]);
    assert_eq!(consumed, 8);
}

#[test]
fn read_tokens_with_limit_zero_moves_nowhere() {
    let (tokens, consumed) = read_tokens(b"  P5 1", 1, 0);
    assert!(tokens.is_empty());
    assert_eq!(consumed, 1);
}

#[test]
fn read_tokens_goes_on_from_a_position() {
    let source = b"P5 10 20\n255\n\x01\x02";
    let (head, after_dims) = read_tokens(source, 0, 3);
    assert_eq!(head.len(), 3);
    assert_eq!(after_dims, 9);
    let (tail, after_max) = read_tokens(source, after_dims, 1);
    assert_eq!(tail, vec![b"255".to_vec()]);
    assert_eq!(after_max, 13);
    let (all, consumed) = read_tokens(source, 0, 4);
    assert_eq!(all.len(), 4);
    assert_eq!(consumed, after_max);
}
