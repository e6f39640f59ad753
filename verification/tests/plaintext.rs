use life_backend::format::{FormatError, Plaintext, PlaintextBuilder, PlaintextLine};
use life_backend::{Format, Position, Rule};

fn do_check(target: &Plaintext, expected_name: &Option<&str>, expected_comments: &[&str], expected_contents: &[PlaintextLine]) {
    let expected_name = expected_name.map(String::from);
    assert_eq!(target.name(), expected_name);
    assert_eq!(target.comments().len(), expected_comments.len());
    for (result, expected) in target.comments().iter().zip(expected_comments.iter()) {
        assert_eq!(result, expected);
    }
    assert_eq!(target.contents().len(), expected_contents.len());
    for (result, expected) in target.contents().iter().zip(expected_contents.iter()) {
        assert_eq!(result, expected);
    }
}

fn do_new_test_to_be_passed(pattern: &str, expected_name: &Option<&str>, expected_comments: &[&str], expected_contents: &[PlaintextLine]) -> Result<(), FormatError> {
    let target = Plaintext::new(pattern.as_bytes())?;
    do_check(&target, expected_name, expected_comments, expected_contents);
    assert_eq!(target.to_string(), pattern);
    Ok(())
}

fn do_new_test_to_be_failed(pattern: &str) {
    let target = Plaintext::new(pattern.as_bytes());
    assert!(target.is_err());
}

fn do_from_str_test_to_be_passed(pattern: &str, expected_name: &Option<&str>, expected_comments: &[&str], expected_contents: &[PlaintextLine]) -> Result<(), FormatError> {
    let target: Plaintext = pattern.parse()?;
    do_check(&target, expected_name, expected_comments, expected_contents);
    assert_eq!(target.to_string(), pattern);
    Ok(())
}

#[test]
fn test_new_empty() -> Result<(), FormatError> {
    let pattern = "";
    do_new_test_to_be_passed(pattern, &None, &Vec::new(), &Vec::new())
}

#[test]
fn test_new_header() -> Result<(), FormatError> {
    let pattern = "!Name: test\n";
    do_new_test_to_be_passed(pattern, &Some("test"), &Vec::new(), &Vec::new())
}

#[test]
fn test_new_no_header_but_comment() -> Result<(), FormatError> {
    let pattern = "!comment\n";
    do_new_test_to_be_passed(pattern, &None, &["comment"], &Vec::new())
}

#[test]
fn test_new_header_comment() -> Result<(), FormatError> {
    let pattern = "!Name: test\n!comment\n";
    do_new_test_to_be_passed(pattern, &Some("test"), &["comment"], &Vec::new())
}

#[test]
fn test_new_header_comments() -> Result<(), FormatError> {
    let pattern = "!Name: test\n!comment0\n!comment1\n";
    do_new_test_to_be_passed(pattern, &Some("test"), &["comment0", "comment1"], &Vec::new())
}

#[test]
fn test_new_header_content() -> Result<(), FormatError> {
    let pattern = "!Name: test\n.O\n";
    do_new_test_to_be_passed(pattern, &Some("test"), &Vec::new(), &[PlaintextLine(0, vec![1])])
}

#[test]
fn test_new_header_contents() -> Result<(), FormatError> {
    let pattern = "!Name: test\n.O\nO.\n";
    do_new_test_to_be_passed(pattern, &Some("test"), &Vec::new(), &[PlaintextLine(0, vec![1]), PlaintextLine(1, vec![0])])
}

#[test]
fn test_new_header_comments_contents() -> Result<(), FormatError> {
    let pattern = "!Name: test\n!comment0\n!comment1\n.O\nO.\n";
    do_new_test_to_be_passed(
        pattern,
        &Some("test"),
        &["comment0", "comment1"],
        &[PlaintextLine(0, vec![1]), PlaintextLine(1, vec![0])],
    )
}

#[test]
fn test_new_wrong_header() {
    let pattern = "_\n";
    do_new_test_to_be_failed(pattern)
}

#[test]
fn test_new_duplicate_header() -> Result<(), FormatError> {
    let pattern = "!Name: name0\n!Name: name1\n";
    do_new_test_to_be_passed(pattern, &Some("name0"), &["Name: name1"], &Vec::new())
}

#[test]
fn test_new_wrong_content_without_comment() {
    let pattern = "!Name: test\n_\n";
    do_new_test_to_be_failed(pattern)
}

#[test]
fn test_new_wrong_content_with_comment() {
    let pattern = "!Name: test\n!\n_\n";
    do_new_test_to_be_failed(pattern)
}

#[test]
fn test_build() -> Result<(), FormatError> {
    let pattern = [Position(1, 0), Position(0, 1)];
    let target = PlaintextBuilder::from_iter(&pattern).build()?;
    do_check(&target, &None, &Vec::new(), &[PlaintextLine(0, vec![1]), PlaintextLine(1, vec![0])]);
    Ok(())
}

#[test]
fn test_build_singleline_name() -> Result<(), FormatError> {
    let pattern = [Position(1, 0), Position(0, 1)];
    let target = PlaintextBuilder::from_iter(&pattern).name("test").build()?;
    do_check(&target, &Some("test"), &Vec::new(), &[PlaintextLine(0, vec![1]), PlaintextLine(1, vec![0])]);
    Ok(())
}

#[test]
fn test_build_blank_name() -> Result<(), FormatError> {
    let pattern = [Position(1, 0), Position(0, 1)];
    let target = PlaintextBuilder::from_iter(&pattern).name("").build()?;
    do_check(&target, &Some(""), &Vec::new(), &[PlaintextLine(0, vec![1]), PlaintextLine(1, vec![0])]);
    Ok(())
}

#[test]
fn test_build_multiline_name() {
    let pattern = [Position(1, 0), Position(0, 1)];
    let target = PlaintextBuilder::from_iter(&pattern).name("name\nname").build();
    assert!(target.is_err());
}

#[test]
fn test_build_comment() -> Result<(), FormatError> {
    let pattern = [Position(1, 0), Position(0, 1)];
    let target = PlaintextBuilder::from_iter(&pattern).comment("comment").build()?;
    do_check(&target, &None, &["comment"], &[PlaintextLine(0, vec![1]), PlaintextLine(1, vec![0])]);
    Ok(())
}

#[test]
fn test_build_blank_comment() -> Result<(), FormatError> {
    let pattern = [Position(1, 0), Position(0, 1)];
    let target = PlaintextBuilder::from_iter(&pattern).comment("").build()?;
    do_check(&target, &None, &[""], &[PlaintextLine(0, vec![1]), PlaintextLine(1, vec![0])]);
    Ok(())
}

#[test]
fn test_build_comments() -> Result<(), FormatError> {
    let pattern = [Position(1, 0), Position(0, 1)];
    let target = PlaintextBuilder::from_iter(&pattern).comment("comment0\ncomment1").build()?;
    do_check(
        &target,
        &None,
        &["comment0", "comment1"],
        &[PlaintextLine(0, vec![1]), PlaintextLine(1, vec![0])],
    );
    Ok(())
}

#[test]
fn test_build_name_comment() -> Result<(), FormatError> {
    let pattern = [Position(1, 0), Position(0, 1)];
    let target = PlaintextBuilder::from_iter(&pattern).name("test").comment("comment").build()?;
    do_check(&target, &Some("test"), &["comment"], &[PlaintextLine(0, vec![1]), PlaintextLine(1, vec![0])]);
    Ok(())
}

#[test]
fn test_from_str() -> Result<(), FormatError> {
    let pattern = "!Name: test\n!comment0\n!comment1\n.O\nO.\n";
    do_from_str_test_to_be_passed(
        pattern,
        &Some("test"),
        &["comment0", "comment1"],
        &[PlaintextLine(0, vec![1]), PlaintextLine(1, vec![0])],
    )
}

#[test]
fn builder_default() {
    let target = PlaintextBuilder::default();
    let built = target.build().unwrap();
    assert!(built.contents().is_empty());
    assert!(built.live_cells().is_empty());
}

#[test]
fn plaintext_invalid_utf8() {
    let bytes: [u8; 3] = [b'.', 0xff, b'\n'];
    assert_eq!(Plaintext::new(&bytes).err(), Some(FormatError::InvalidUtf8));
}

#[test]
fn plaintext_invalid_character() {
    assert_eq!(Plaintext::new(b"..O\n.x.\n").err(), Some(FormatError::InvalidCharacter));
}

#[test]
fn plaintext_multiline_name() {
    let target = PlaintextBuilder::new().name("a\nb").build();
    assert_eq!(target.err(), Some(FormatError::MultilineName));
}

#[test]
fn plaintext_non_ascii_content_from_str() {
    let target = "\u{e9}\n".parse::<Plaintext>();
    assert_eq!(target.err(), Some(FormatError::InvalidCharacter));
    let target = Plaintext::new("\u{e9}\n".as_bytes());
    assert_eq!(target.err(), Some(FormatError::InvalidCharacter));
}

#[test]
fn plaintext_crlf_and_blank_rows() -> Result<(), FormatError> {
    let target = Plaintext::new(b"!Name: x\r\n..\r\n.O\r\n")?;
    assert_eq!(target.name(), Some("x".to_string()));
    assert_eq!(target.contents(), &vec![PlaintextLine(1, vec![1])]);
    assert_eq!(target.live_cells(), vec![Position(1, 1)]);
    assert_eq!(target.to_string(), "!Name: x\n..\n.O\n");
    Ok(())
}

#[test]
fn plaintext_comment_after_content_is_content() {
    let target = Plaintext::new(b".O\n!late\n");
    assert_eq!(target.err(), Some(FormatError::InvalidCharacter));
}

#[test]
fn plaintext_build_lists_cells_in_row_order() -> Result<(), FormatError> {
    let pattern = [Position(2, 2), Position(0, 0), Position(1, 2), Position(2, 0), Position(0, 0)];
    let target = PlaintextBuilder::from_iter(&pattern).build()?;
    assert_eq!(target.live_cells(), vec![Position(0, 0), Position(2, 0), Position(1, 2), Position(2, 2)]);
    assert_eq!(target.to_string(), "O.O\n...\n.OO\n");
    Ok(())
}

#[test]
fn plaintext_build_extend_and_comment_lines() -> Result<(), FormatError> {
    let mut builder = PlaintextBuilder::new().comment("one\ntwo");
    builder.extend(&[Position(3, 1)]);
    let target = builder.build()?;
    assert_eq!(target.comments(), &vec!["one".to_string(), "two".to_string()]);
    assert_eq!(target.to_string(), "!one\n!two\n....\n...O\n");
    Ok(())
}

#[test]
fn plaintext_format_trait() -> Result<(), FormatError> {
    let target = Plaintext::new(b".O\nO.\n")?;
    let handler: &dyn Format = &target;
    assert_eq!(handler.rule(), Rule::conways_life());
    assert_eq!(handler.live_cells(), vec![Position(1, 0), Position(0, 1)]);
    Ok(())
}

#[test]
fn plaintext_earlier_line_error_comes_first() {
    let bytes: [u8; 4] = [b'_', b'\n', 0xff, b'\n'];
    assert_eq!(Plaintext::new(&bytes).err(), Some(FormatError::InvalidCharacter));
    let bytes: [u8; 4] = [0xff, b'\n', b'_', b'\n'];
    assert_eq!(Plaintext::new(&bytes).err(), Some(FormatError::InvalidUtf8));
}

#[test]
fn plaintext_text_reads_back() -> Result<(), FormatError> {
    let pattern = [Position(3, 0), Position(0, 2), Position(1, 2)];
    let built = PlaintextBuilder::from_iter(&pattern).name("shape").comment("first\nsecond").build()?;
    let text = built.to_string();
    assert_eq!(text, "!Name: shape\n!first\n!second\n...O\n....\nOO..\n");
    let parsed = text.parse::<Plaintext>()?;
    assert_eq!(parsed.name(), built.name());
    assert_eq!(parsed.comments(), built.comments());
    assert_eq!(parsed.contents(), built.contents());
    Ok(())
}

#[test]
fn plaintext_non_ascii_prefixes() {
    let text = "!abcde\u{e9}x\n";
    let target = Plaintext::new(text.as_bytes()).unwrap();
    assert_eq!(target.name(), None);
    assert_eq!(target.comments(), &vec!["abcde\u{e9}x".to_string()]);
    let text = "!Name:\u{e9}\n.O\n";
    let target = Plaintext::new(text.as_bytes()).unwrap();
    assert_eq!(target.name(), None);
    assert_eq!(target.comments(), &vec!["Name:\u{e9}".to_string()]);
    assert_eq!(target.contents(), &vec![PlaintextLine(0, vec![1])]);
    let text = "!Name: \u{e9}\n";
    let target = Plaintext::new(text.as_bytes()).unwrap();
    assert_eq!(target.name(), Some("\u{e9}".to_string()));
    let target = Plaintext::new("..\n\u{e9}\n".as_bytes());
    assert_eq!(target.err(), Some(FormatError::InvalidCharacter));
}
