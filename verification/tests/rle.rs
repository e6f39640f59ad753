use life_backend::format::{FormatError, Rle, RleBuilder, RleRunsTriple};
use life_backend::{Format, Position, Rule};

fn rule_highlife() -> Rule {
    Rule::new(
        &[false, false, false, true, false, false, true, false, false],
        &[false, false, true, true, false, false, false, false, false],
    )
}

fn do_check(
    target: &Rle,
    expected_width: usize,
    expected_height: usize,
    expected_rule: &Rule,
    expected_comments: &[&str],
    expected_contents: &[(usize, usize, usize)],
    expected_pattern: Option<&str>,
) {
    assert_eq!(target.width(), expected_width);
    assert_eq!(target.height(), expected_height);
    assert_eq!(target.rule(), expected_rule);
    assert_eq!(target.comments().len(), expected_comments.len());
    for (result, expected) in target.comments().iter().zip(expected_comments.iter()) {
        assert_eq!(result, expected);
    }
    assert_eq!(target.contents().len(), expected_contents.len());
    for (result, &expected) in target.contents().iter().zip(expected_contents.iter()) {
        assert_eq!((result.pad_lines, result.pad_dead_cells, result.live_cells), expected);
    }
    if let Some(expected_pattern) = expected_pattern {
        assert_eq!(target.to_string(), expected_pattern);
    }
}

fn do_new_test_to_be_passed(
    pattern: &str,
    expected_width: usize,
    expected_height: usize,
    expected_rule: &Rule,
    expected_comments: &[&str],
    expected_contents: &[(usize, usize, usize)],
    check_tostring: bool,
) -> Result<(), FormatError> {
    let target = Rle::new(pattern.as_bytes())?;
    do_check(
        &target,
        expected_width,
        expected_height,
        expected_rule,
        expected_comments,
        expected_contents,
        if check_tostring { Some(pattern) } else { None },
    );
    Ok(())
}

fn do_new_test_to_be_failed(pattern: &str) {
    let target = Rle::new(pattern.as_bytes());
    assert!(target.is_err());
}

fn do_from_str_test_to_be_passed(
    pattern: &str,
    expected_width: usize,
    expected_height: usize,
    expected_rule: &Rule,
    expected_comments: &[&str],
    expected_contents: &[(usize, usize, usize)],
    check_tostring: bool,
) -> Result<(), FormatError> {
    let target: Rle = pattern.parse()?;
    do_check(
        &target,
        expected_width,
        expected_height,
        expected_rule,
        expected_comments,
        expected_contents,
        if check_tostring { Some(pattern) } else { None },
    );
    Ok(())
}

#[test]
fn test_new_header_with_conways_rule() -> Result<(), FormatError> {
    let pattern = "x = 0, y = 0, rule = B3/S23\n!\n";
    do_new_test_to_be_passed(pattern, 0, 0, &Rule::conways_life(), &Vec::new(), &Vec::new(), true)
}

#[test]
fn test_new_header_with_highlife_rule() -> Result<(), FormatError> {
    let pattern = "x = 0, y = 0, rule = B36/S23\n!\n";
    do_new_test_to_be_passed(pattern, 0, 0, &rule_highlife(), &Vec::new(), &Vec::new(), true)
}

#[test]
fn test_new_header_without_rule() -> Result<(), FormatError> {
    let pattern = "x = 0, y = 0\n!\n";
    do_new_test_to_be_passed(pattern, 0, 0, &Rule::conways_life(), &Vec::new(), &Vec::new(), false)
}

#[test]
fn test_new_comment_header() -> Result<(), FormatError> {
    let pattern = "#comment\nx = 0, y = 0, rule = B3/S23\n!\n";
    do_new_test_to_be_passed(pattern, 0, 0, &Rule::conways_life(), &["#comment"], &Vec::new(), true)
}

#[test]
fn test_new_comments_header() -> Result<(), FormatError> {
    let pattern = "#comment0\n#comment1\nx = 0, y = 0, rule = B3/S23\n!\n";
    do_new_test_to_be_passed(pattern, 0, 0, &Rule::conways_life(), &["#comment0", "#comment1"], &Vec::new(), true)
}

#[test]
fn test_new_comments_with_blank_header() -> Result<(), FormatError> {
    let pattern = "#comment\n\nx = 0, y = 0, rule = B3/S23\n!\n";
    do_new_test_to_be_passed(pattern, 0, 0, &Rule::conways_life(), &["#comment", ""], &Vec::new(), true)
}

#[test]
fn tests_test_new_header_content() -> Result<(), FormatError> {
    let pattern = "x = 1, y = 1, rule = B3/S23\no!\n";
    do_new_test_to_be_passed(pattern, 1, 1, &Rule::conways_life(), &Vec::new(), &[(0, 0, 1)], true)
}

#[test]
fn tests_test_new_header_contents() -> Result<(), FormatError> {
    let pattern = "x = 2, y = 2, rule = B3/S23\no$bo!\n";
    do_new_test_to_be_passed(pattern, 2, 2, &Rule::conways_life(), &Vec::new(), &[(0, 0, 1), (1, 1, 1)], true)
}

#[test]
fn test_new_comments_header_contents() -> Result<(), FormatError> {
    let pattern = "#comment0\n#comment1\nx = 2, y = 2, rule = B3/S23\no$bo!\n";
    do_new_test_to_be_passed(pattern, 2, 2, &Rule::conways_life(), &["#comment0", "#comment1"], &[(0, 0, 1), (1, 1, 1)], true)
}

#[test]
fn tests_test_new_empty() {
    let pattern = "";
    do_new_test_to_be_failed(pattern)
}

#[test]
fn test_new_header_invalid_format() {
    let pattern = "_\n";
    do_new_test_to_be_failed(pattern)
}

#[test]
fn test_new_header_unknown_variable() {
    let pattern = "z = 0\n";
    do_new_test_to_be_failed(pattern)
}

#[test]
fn test_new_header_invalid_width() {
    let pattern = "x = _, y = 0\n";
    do_new_test_to_be_failed(pattern)
}

#[test]
fn test_new_header_invalid_height() {
    let pattern = "x = 0, y = _\n";
    do_new_test_to_be_failed(pattern)
}

#[test]
fn test_new_header_without_width() {
    let pattern = "y = 0\n";
    do_new_test_to_be_failed(pattern)
}

#[test]
fn test_new_header_without_height() {
    let pattern = "x = 0\n";
    do_new_test_to_be_failed(pattern)
}

#[test]
fn test_new_header_exceed_width() {
    let pattern = "x = 0, y = 1\no!\n";
    do_new_test_to_be_failed(pattern)
}

#[test]
fn test_new_header_exceed_height() {
    let pattern = "x = 1, y = 0\no!\n";
    do_new_test_to_be_failed(pattern)
}

#[test]
fn test_new_header_larger_width() -> Result<(), FormatError> {
    let pattern = "x = 2, y = 1, rule = B3/S23\no!\n";
    do_new_test_to_be_passed(pattern, 2, 1, &Rule::conways_life(), &Vec::new(), &[(0, 0, 1)], true)
}

#[test]
fn test_new_header_larger_height() -> Result<(), FormatError> {
    let pattern = "x = 1, y = 2, rule = B3/S23\no!\n";
    do_new_test_to_be_passed(pattern, 1, 2, &Rule::conways_life(), &Vec::new(), &[(0, 0, 1)], true)
}

#[test]
fn test_new_content_acceptable_tag_without_count() -> Result<(), FormatError> {
    let pattern = "x = 1, y = 1\n_!\n";
    do_new_test_to_be_passed(pattern, 1, 1, &Rule::conways_life(), &Vec::new(), &[(0, 0, 1)], false)
}

#[test]
fn test_new_content_acceptable_tag_with_count() -> Result<(), FormatError> {
    let pattern = "x = 2, y = 1\n2_!\n";
    do_new_test_to_be_passed(pattern, 2, 1, &Rule::conways_life(), &Vec::new(), &[(0, 0, 2)], false)
}

#[test]
fn test_new_content_alone_count() {
    let pattern = "x = 1, y = 1\n1\n!\n";
    do_new_test_to_be_failed(pattern)
}

#[test]
fn test_new_content_count_with_whitespace() {
    let pattern = "x = 1, y = 1\n1 \n!\n";
    do_new_test_to_be_failed(pattern)
}

#[test]
fn test_new_content_without_terminator() {
    let pattern = "x = 1, y = 1\no\n";
    do_new_test_to_be_failed(pattern)
}

#[test]
fn test_new_content_terminator_with_count() {
    let pattern = "x = 1, y = 1\n2!\n";
    do_new_test_to_be_failed(pattern)
}

#[test]
fn test_new_content_exceeds_width_with_dead_cell() {
    let pattern = "x = 1, y = 1\nob!\n";
    do_new_test_to_be_failed(pattern)
}

#[test]
fn test_new_content_exceeds_width_with_dead_cells() {
    let pattern = "x = 2, y = 2\n2o$o2b!\n";
    do_new_test_to_be_failed(pattern)
}

#[test]
fn test_new_content_exceeds_height_with_end_of_line() {
    let pattern = "x = 1, y = 1\no$!\n";
    do_new_test_to_be_failed(pattern)
}

#[test]
fn test_new_content_exceeds_height_with_end_of_lines() {
    let pattern = "x = 1, y = 2\no2$!\n";
    do_new_test_to_be_failed(pattern)
}

#[test]
fn test_new_nonoptimal_dead_cells() -> Result<(), FormatError> {
    let pattern = "x = 4, y = 1\nbbbo!\n";
    do_new_test_to_be_passed(pattern, 4, 1, &Rule::conways_life(), &Vec::new(), &[(0, 3, 1)], false)
}

#[test]
fn test_new_nonoptimal_live_cells() -> Result<(), FormatError> {
    let pattern = "x = 3, y = 1\nooo!\n";
    do_new_test_to_be_passed(pattern, 3, 1, &Rule::conways_life(), &Vec::new(), &[(0, 0, 3)], false)
}

#[test]
fn test_new_nonoptimal_end_of_lines() -> Result<(), FormatError> {
    let pattern = "x = 1, y = 4\n$$$o!\n";
    do_new_test_to_be_passed(pattern, 1, 4, &Rule::conways_life(), &Vec::new(), &[(3, 0, 1)], false)
}

#[test]
fn test_new_nonoptimal_line_end_dead_cell() -> Result<(), FormatError> {
    let pattern = "x = 1, y = 2\nb$o!\n";
    do_new_test_to_be_passed(pattern, 1, 2, &Rule::conways_life(), &Vec::new(), &[(1, 0, 1)], false)
}

#[test]
fn test_new_nonoptimal_line_end_dead_cells() -> Result<(), FormatError> {
    let pattern = "x = 2, y = 2\n2b$2o!\n";
    do_new_test_to_be_passed(pattern, 2, 2, &Rule::conways_life(), &Vec::new(), &[(1, 0, 2)], false)
}

#[test]
fn test_new_nonoptimal_trailing_dead_cell() -> Result<(), FormatError> {
    let pattern = "x = 2, y = 2\n2o$ob!\n";
    do_new_test_to_be_passed(pattern, 2, 2, &Rule::conways_life(), &Vec::new(), &[(0, 0, 2), (1, 0, 1)], false)
}

#[test]
fn test_new_nonoptimal_trailing_dead_cells() -> Result<(), FormatError> {
    let pattern = "x = 3, y = 2\n3o$o2b!\n";
    do_new_test_to_be_passed(pattern, 3, 2, &Rule::conways_life(), &Vec::new(), &[(0, 0, 3), (1, 0, 1)], false)
}

#[test]
fn test_new_nonoptimal_trailing_line_end() -> Result<(), FormatError> {
    let pattern = "x = 1, y = 2\no$!\n";
    do_new_test_to_be_passed(pattern, 1, 2, &Rule::conways_life(), &Vec::new(), &[(0, 0, 1)], false)
}

#[test]
fn test_new_nonoptimal_trailing_line_ends() -> Result<(), FormatError> {
    let pattern = "x = 1, y = 3\no2$!\n";
    do_new_test_to_be_passed(pattern, 1, 3, &Rule::conways_life(), &Vec::new(), &[(0, 0, 1)], false)
}

#[test]
fn test_new_trailing_ignored_content() -> Result<(), FormatError> {
    let pattern = "x = 1, y = 1\no!_\n";
    do_new_test_to_be_passed(pattern, 1, 1, &Rule::conways_life(), &Vec::new(), &[(0, 0, 1)], false)
}

#[test]
fn test_new_trailing_ignored_line() -> Result<(), FormatError> {
    let pattern = "x = 1, y = 1\no!\nignored line\n";
    do_new_test_to_be_passed(pattern, 1, 1, &Rule::conways_life(), &Vec::new(), &[(0, 0, 1)], false)
}

#[test]
fn tests_test_build() -> Result<(), FormatError> {
    let pattern = [Position(0, 0), Position(1, 0), Position(2, 0), Position(1, 1)];
    let target = RleBuilder::from_iter(&pattern).build()?;
    do_check(&target, 3, 2, &Rule::conways_life(), &Vec::new(), &[(0, 0, 3), (1, 1, 1)], None);
    Ok(())
}

#[test]
fn tests_test_build_singleline_name() -> Result<(), FormatError> {
    let pattern = [Position(0, 0)];
    let target = RleBuilder::from_iter(&pattern).name("name").build()?;
    do_check(&target, 1, 1, &Rule::conways_life(), &["#N name"], &[(0, 0, 1)], None);
    Ok(())
}

#[test]
fn tests_test_build_blank_name() -> Result<(), FormatError> {
    let pattern = [Position(0, 0)];
    let target = RleBuilder::from_iter(&pattern).name("").build()?;
    do_check(&target, 1, 1, &Rule::conways_life(), &["#N"], &[(0, 0, 1)], None);
    Ok(())
}

#[test]
fn tests_test_build_multiline_name() {
    let pattern = [Position(0, 0)];
    let target = RleBuilder::from_iter(&pattern).name("name\nname").build();
    assert!(target.is_err());
}

#[test]
fn test_build_created() -> Result<(), FormatError> {
    let pattern = [Position(0, 0)];
    let target = RleBuilder::from_iter(&pattern).created("created").build()?;
    do_check(&target, 1, 1, &Rule::conways_life(), &["#O created"], &[(0, 0, 1)], None);
    Ok(())
}

#[test]
fn test_build_blank_created() -> Result<(), FormatError> {
    let pattern = [Position(0, 0)];
    let target = RleBuilder::from_iter(&pattern).created("").build()?;
    do_check(&target, 1, 1, &Rule::conways_life(), &["#O"], &[(0, 0, 1)], None);
    Ok(())
}

#[test]
fn test_build_createds() -> Result<(), FormatError> {
    let pattern = [Position(0, 0)];
    let target = RleBuilder::from_iter(&pattern).created("created0\ncreated1").build()?;
    do_check(&target, 1, 1, &Rule::conways_life(), &["#O created0", "#O created1"], &[(0, 0, 1)], None);
    Ok(())
}

#[test]
fn tests_test_build_comment() -> Result<(), FormatError> {
    let pattern = [Position(0, 0)];
    let target = RleBuilder::from_iter(&pattern).comment("comment").build()?;
    do_check(&target, 1, 1, &Rule::conways_life(), &["#C comment"], &[(0, 0, 1)], None);
    Ok(())
}

#[test]
fn tests_test_build_blank_comment() -> Result<(), FormatError> {
    let pattern = [Position(0, 0)];
    let target = RleBuilder::from_iter(&pattern).comment("").build()?;
    do_check(&target, 1, 1, &Rule::conways_life(), &["#C"], &[(0, 0, 1)], None);
    Ok(())
}

#[test]
fn tests_test_build_comments() -> Result<(), FormatError> {
    let pattern = [Position(0, 0)];
    let target = RleBuilder::from_iter(&pattern).comment("comment0\ncomment1").build()?;
    do_check(&target, 1, 1, &Rule::conways_life(), &["#C comment0", "#C comment1"], &[(0, 0, 1)], None);
    Ok(())
}

#[test]
fn test_build_rule() -> Result<(), FormatError> {
    let pattern = [Position(0, 0)];
    let target = RleBuilder::from_iter(&pattern).rule(rule_highlife()).build()?;
    do_check(&target, 1, 1, &rule_highlife(), &Vec::new(), &[(0, 0, 1)], None);
    Ok(())
}

#[test]
fn test_build_name_created_comment() -> Result<(), FormatError> {
    let pattern = [Position(0, 0)];
    let target = RleBuilder::from_iter(&pattern)
        .name("name")
        .created("created")
        .comment("comment")
        .build()?;
    do_check(
        &target,
        1,
        1,
        &Rule::conways_life(),
        &["#N name", "#O created", "#C comment"],
        &[(0, 0, 1)],
        None,
    );
    Ok(())
}

#[test]
fn test_display_max_width() -> Result<(), FormatError> {
    let repeated = "bo".repeat(35);
    let pattern = ["x = 72, y = 1, rule = B3/S23", repeated.as_str(), "bo!"]
        .iter()
        .map(|&s| s.to_string() + "\n")
        .collect::<String>();
    let target = Rle::new(pattern.as_bytes())?;
    assert_eq!(target.to_string(), pattern);
    Ok(())
}

#[test]
fn tests_test_from_str() -> Result<(), FormatError> {
    let pattern = "#comment0\n#comment1\nx = 2, y = 2, rule = B3/S23\no$bo!\n";
    do_from_str_test_to_be_passed(pattern, 2, 2, &Rule::conways_life(), &["#comment0", "#comment1"], &[(0, 0, 1), (1, 1, 1)], true)
}

#[test]
fn rle_error_kinds() {
    let cases: [(&str, FormatError); 13] = [
        ("x = 1, y = 1, rule = B3/S23, z = 1\n!\n", FormatError::TooManyFields),
        ("x = 1, y\n!\n", FormatError::HeaderFieldWithoutEquals),
        ("x = 1\n!\n", FormatError::TooFewFields),
        ("y = 1, x = 1\n!\n", FormatError::UnexpectedVariable),
        ("x = 1, y = 1, r = B3/S23\n!\n", FormatError::UnexpectedVariable),
        ("x = a, y = 1\n!\n", FormatError::InvalidValue),
        ("x = 1, y = 1, rule = B9/S23\n!\n", FormatError::InvalidValue),
        ("x = 1, y = 1\n2!\n", FormatError::WrongContentFormat),
        ("x = 1, y = 1\no$o!\n", FormatError::ExceedsHeight),
        ("x = 1, y = 1\n2o!\n", FormatError::ExceedsWidth),
        ("x = 1, y = 1\no\n", FormatError::TerminatorNotFound),
        ("", FormatError::TerminatorNotFound),
        ("#only a comment\n", FormatError::TerminatorNotFound),
    ];
    for (pattern, expected) in cases {
        assert_eq!(Rle::new(pattern.as_bytes()).err(), Some(expected), "{pattern:?}");
    }
}

#[test]
fn rle_invalid_utf8() {
    let bytes: [u8; 4] = [b'x', 0xc3, 0x28, b'\n'];
    assert_eq!(Rle::new(&bytes).err(), Some(FormatError::InvalidUtf8));
}

#[test]
fn rle_from_str_refuses_what_would_not_fit() {
    assert_eq!(
        "x = 1, y = 1\n99999999999999999999999o!\n".parse::<Rle>().err(),
        Some(FormatError::RunCountOverflow)
    );
    assert_eq!(
        "x = 18446744073709551615, y = 1\n18446744073709551615o18446744073709551615o!\n".parse::<Rle>().err(),
        Some(FormatError::RunCountOverflow)
    );
}

#[test]
fn rle_header_values_are_trimmed_and_signed() -> Result<(), FormatError> {
    let target = Rle::new(b"  x=+3 ,y =  2\t, rule= 23/3  \n3o$bo!\n")?;
    assert_eq!(target.width(), 3);
    assert_eq!(target.height(), 2);
    assert_eq!(target.rule(), &Rule::conways_life());
    assert_eq!(target.live_cells(), vec![Position(0, 0), Position(1, 0), Position(2, 0), Position(1, 1)]);
    Ok(())
}

#[test]
fn rle_runs_across_lines_and_whitespace() -> Result<(), FormatError> {
    let target = Rle::new(b"x = 3, y = 3\n b o $\n 2b o$ 3o !\n")?;
    assert_eq!(target.live_cells(), vec![Position(1, 0), Position(2, 1), Position(0, 2), Position(1, 2), Position(2, 2)]);
    assert_eq!(target.to_string(), "x = 3, y = 3, rule = B3/S23\nbo$2bo$3o!\n");
    Ok(())
}

#[test]
fn rle_zero_count_line_end() -> Result<(), FormatError> {
    let target = Rle::new(b"x = 3, y = 1\n2o0$o!\n")?;
    let contents: Vec<_> = target.contents().iter().map(|t| (t.pad_lines, t.pad_dead_cells, t.live_cells)).collect();
    assert_eq!(contents, vec![(0, 0, 2), (0, 0, 1)]);
    assert_eq!(target.live_cells(), vec![Position(0, 0), Position(1, 0), Position(2, 0)]);
    Ok(())
}

#[test]
fn rle_build_cells_and_size() -> Result<(), FormatError> {
    let pattern = [Position(5, 3), Position(1, 0), Position(2, 0), Position(0, 3), Position(1, 0)];
    let target = RleBuilder::from_iter(&pattern).build()?;
    assert_eq!(target.width(), 6);
    assert_eq!(target.height(), 4);
    assert_eq!(target.live_cells(), vec![Position(1, 0), Position(2, 0), Position(0, 3), Position(5, 3)]);
    assert_eq!(target.to_string(), "x = 6, y = 4, rule = B3/S23\nb2o3$o4bo!\n");
    Ok(())
}

#[test]
fn rle_build_empty() -> Result<(), FormatError> {
    let target = RleBuilder::default().build()?;
    assert_eq!(target.width(), 0);
    assert_eq!(target.height(), 0);
    assert!(target.contents().is_empty());
    assert_eq!(target.to_string(), "x = 0, y = 0, rule = B3/S23\n!\n");
    Ok(())
}

#[test]
fn rle_build_extend_and_all_comments() -> Result<(), FormatError> {
    let mut builder = RleBuilder::new().rule(rule_highlife()).comment("c\n\nd").created("me");
    builder.extend(&[Position(0, 0)]);
    let target = builder.name("n").build()?;
    assert_eq!(target.comments(), &vec!["#N n".to_string(), "#O me".to_string(), "#C c".to_string(), "#C".to_string(), "#C d".to_string()]);
    assert_eq!(target.to_string(), "#N n\n#O me\n#C c\n#C\n#C d\nx = 1, y = 1, rule = B36/S23\no!\n");
    Ok(())
}

#[test]
fn rle_roundtrip_of_built_text() -> Result<(), FormatError> {
    let pattern = [Position(1, 0), Position(2, 0), Position(0, 1), Position(1, 1), Position(1, 2)];
    let built = RleBuilder::from_iter(&pattern).name("R-pentomino").build()?;
    let text = built.to_string();
    assert_eq!(text, "#N R-pentomino\nx = 3, y = 3, rule = B3/S23\nb2o$2o$bo!\n");
    let parsed = Rle::new(text.as_bytes())?;
    assert_eq!(parsed.contents(), built.contents());
    assert_eq!(parsed.live_cells(), built.live_cells());
    Ok(())
}

#[test]
fn rle_format_trait() -> Result<(), FormatError> {
    let target: Rle = "x = 3, y = 2, rule = B36/S23\n3o$bo!\n".parse()?;
    let handler: &dyn Format = &target;
    assert_eq!(handler.rule(), rule_highlife());
    assert_eq!(handler.live_cells(), vec![Position(0, 0), Position(1, 0), Position(2, 0), Position(1, 1)]);
    Ok(())
}

#[test]
fn rle_earlier_line_error_comes_first() {
    let bytes: [u8; 6] = [b'z', b' ', b'=', b'\n', 0xff, b'\n'];
    assert_eq!(Rle::new(&bytes).err(), Some(FormatError::TooFewFields));
}

#[test]
fn rle_text_reads_back_across_wrapped_lines() -> Result<(), FormatError> {
    let cells: Vec<Position<usize>> = (0..40).map(|i| Position(3 * i, i % 3)).collect();
    let built = RleBuilder::from_iter(&cells).comment("wide").build()?;
    let text = built.to_string();
    assert!(text.lines().all(|l| l.len() <= 70));
    assert!(text.lines().count() > 3);
    let parsed = text.parse::<Rle>()?;
    assert_eq!(parsed.width(), built.width());
    assert_eq!(parsed.height(), built.height());
    assert_eq!(parsed.rule(), built.rule());
    assert_eq!(parsed.comments(), built.comments());
    assert_eq!(parsed.contents(), built.contents());
    assert_eq!(parsed.live_cells(), built.live_cells());
    Ok(())
}

#[test]
fn rle_new_refuses_what_would_not_fit() {
    assert_eq!(
        Rle::new(b"x = 1, y = 1\no18446744073709551615b!\n").err(),
        Some(FormatError::RunCountOverflow)
    );
    assert_eq!(
        Rle::new(b"x = 1, y = 2\n18446744073709551615$!\n").err(),
        Some(FormatError::ExceedsHeight)
    );
    let target = Rle::new(b"x = 2, y = 1\n2o!\n").unwrap();
    assert_eq!(target.live_cells(), vec![Position(0, 0), Position(1, 0)]);
}

#[test]
fn rle_non_ascii_tag_is_live_cell() {
    let target = Rle::new("x = 2, y = 1\n\u{e9}o!\n".as_bytes()).unwrap();
    assert_eq!(target.contents(), &vec![RleRunsTriple { pad_lines: 0, pad_dead_cells: 0, live_cells: 2 }]);
    assert_eq!(target.live_cells(), vec![Position(0, 0), Position(1, 0)]);
    let target = "x = 1, y = 1\n\u{e9}!\n".parse::<Rle>().unwrap();
    assert_eq!(target.contents(), &vec![RleRunsTriple { pad_lines: 0, pad_dead_cells: 0, live_cells: 1 }]);
    let target = Rle::new("x = 3, y = 1\n2\u{e9}b!\n".as_bytes()).unwrap();
    assert_eq!(target.contents(), &vec![RleRunsTriple { pad_lines: 0, pad_dead_cells: 0, live_cells: 2 }]);
}

#[test]
fn rle_text_of_parsed_pattern_reads_back() -> Result<(), FormatError> {
    let parsed = Rle::new(b"#C split runs\nx = 4, y = 2, rule = B36/S23\no0bo$b2o!\n")?;
    assert_eq!(
        parsed.contents(),
        &vec![
            RleRunsTriple { pad_lines: 0, pad_dead_cells: 0, live_cells: 1 },
            RleRunsTriple { pad_lines: 0, pad_dead_cells: 0, live_cells: 1 },
            RleRunsTriple { pad_lines: 1, pad_dead_cells: 1, live_cells: 2 },
        ]
    );
    let text = parsed.to_string();
    assert_eq!(text, "#C split runs\nx = 4, y = 2, rule = B36/S23\noo$b2o!\n");
    let reread = Rle::new(text.as_bytes())?;
    assert_eq!(reread.width(), parsed.width());
    assert_eq!(reread.height(), parsed.height());
    assert_eq!(reread.rule(), parsed.rule());
    assert_eq!(reread.comments(), parsed.comments());
    assert_eq!(reread.live_cells(), parsed.live_cells());
    assert_eq!(
        reread.contents(),
        &vec![
            RleRunsTriple { pad_lines: 0, pad_dead_cells: 0, live_cells: 2 },
            RleRunsTriple { pad_lines: 1, pad_dead_cells: 1, live_cells: 2 },
        ]
    );
    Ok(())
}

#[test]
fn rle_live_cells_lie_within_pattern() -> Result<(), FormatError> {
    let target = Rle::new(b"x = 4, y = 3\n2bo$4o$o2bo!\n")?;
    let cells = target.live_cells();
    assert_eq!(
        cells,
        vec![Position(2, 0), Position(0, 1), Position(1, 1), Position(2, 1), Position(3, 1), Position(0, 2), Position(3, 2)]
    );
    assert!(cells.iter().all(|p| p.0 < target.width() && p.1 < target.height()));
    Ok(())
}

#[test]
fn rle_empty_line_end_run_keeps_column() -> Result<(), FormatError> {
    let target = Rle::new(b"x = 1, y = 1\no0$o!\n")?;
    assert_eq!(target.live_cells(), vec![Position(0, 0), Position(1, 0)]);
    Ok(())
}

#[test]
fn rle_empty_line_end_at_left_column() -> Result<(), FormatError> {
    let target = Rle::new(b"x = 1, y = 2\n0$o$o!\n")?;
    assert_eq!(target.live_cells(), vec![Position(0, 0), Position(0, 1)]);
    let target = Rle::new(b"x = 2, y = 1\no0$o!\n")?;
    assert_eq!(target.live_cells(), vec![Position(0, 0), Position(1, 0)]);
    Ok(())
}
