use life_backend::format::{FormatError, Plaintext, PlaintextBuilder};
use life_backend::Position;

fn do_new_test_with_string(input_string: &str, expected_positions: &[(usize, usize)]) -> Result<(), FormatError> {
    let target = Plaintext::new(input_string.as_bytes())?;
    println!("Target:");
    println!("{}", target.to_string());
    let expected: Vec<Position<usize>> = expected_positions.iter().map(|&(x, y)| Position(x, y)).collect();
    assert_eq!(target.live_cells(), expected);
    Ok(())
}

fn do_build_test(pattern: &[(usize, usize)], name: Option<String>, comment: Option<String>) -> Result<(), FormatError> {
    let positions: Vec<Position<usize>> = pattern.iter().map(|&(x, y)| Position(x, y)).collect();
    let target = {
        let builder = PlaintextBuilder::from_iter(&positions);
        match (&name, &comment) {
            (None, None) => builder.build()?,
            (Some(name), None) => builder.name(name).build()?,
            (None, Some(comment)) => builder.comment(comment).build()?,
            (Some(name), Some(comment)) => builder.name(name).comment(comment).build()?,
        }
    };
    println!("Target:");
    println!("{}", target.to_string());
    assert_eq!(target.live_cells(), positions);
    assert_eq!(target.name(), name);
    if let Some(comment) = &comment {
        let comments: Vec<_> = comment.lines().map(|s| s.to_string()).collect();
        assert_eq!(target.comments(), &comments);
    }
    Ok(())
}

#[test]
fn format_plaintext_new_with_string() -> Result<(), FormatError> {
    let input_pattern = "\
        !Name: Glider\n\
        .O\n\
        ..O\n\
        OOO\n\
    ";
    let expected_positions = vec![(1, 0), (2, 1), (0, 2), (1, 2), (2, 2)];
    do_new_test_with_string(input_pattern, &expected_positions)
}

#[test]
fn format_plaintext_build() -> Result<(), FormatError> {
    let pattern = vec![(1, 0), (2, 1), (0, 2), (1, 2), (2, 2)];
    let name = Some("Glider".to_string());
    let comment = Some("----".to_string());
    do_build_test(&pattern, name, comment)
}
