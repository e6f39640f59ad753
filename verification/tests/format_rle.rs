use life_backend::format::{FormatError, Rle, RleBuilder};
use life_backend::{Position, Rule};

fn do_new_test_with_string(input_string: &str, expected_positions: &[(usize, usize)]) -> Result<(), FormatError> {
    let target = Rle::new(input_string.as_bytes())?;
    println!("Target:");
    println!("{}", target.to_string());
    let expected: Vec<Position<usize>> = expected_positions.iter().map(|&(x, y)| Position(x, y)).collect();
    assert_eq!(target.live_cells(), expected);
    Ok(())
}

fn do_build_test(pattern: &[(usize, usize)], name: Option<String>, created: Option<String>, comment: Option<String>, rule: Option<Rule>) -> Result<(), FormatError> {
    let positions: Vec<Position<usize>> = pattern.iter().map(|&(x, y)| Position(x, y)).collect();
    let target = {
        let builder = RleBuilder::from_iter(&positions);
        match (name, created, comment, rule) {
            (None, None, None, None) => builder.build()?,
            (Some(name), None, None, None) => builder.name(&name).build()?,
            (None, Some(created), None, None) => builder.created(&created).build()?,
            (Some(name), Some(created), None, None) => builder.name(&name).created(&created).build()?,
            (None, None, Some(comment), None) => builder.comment(&comment).build()?,
            (Some(name), None, Some(comment), None) => builder.name(&name).comment(&comment).build()?,
            (None, Some(created), Some(comment), None) => builder.created(&created).comment(&comment).build()?,
            (Some(name), Some(created), Some(comment), None) => builder.name(&name).created(&created).comment(&comment).build()?,
            (None, None, None, Some(rule)) => builder.rule(rule).build()?,
            (Some(name), None, None, Some(rule)) => builder.name(&name).rule(rule).build()?,
            (None, Some(created), None, Some(rule)) => builder.created(&created).rule(rule).build()?,
            (Some(name), Some(created), None, Some(rule)) => builder.name(&name).created(&created).rule(rule).build()?,
            (None, None, Some(comment), Some(rule)) => builder.comment(&comment).rule(rule).build()?,
            (Some(name), None, Some(comment), Some(rule)) => builder.name(&name).comment(&comment).rule(rule).build()?,
            (None, Some(created), Some(comment), Some(rule)) => builder.created(&created).comment(&comment).rule(rule).build()?,
            (Some(name), Some(created), Some(comment), Some(rule)) => builder.name(&name).created(&created).comment(&comment).rule(rule).build()?,
        }
    };
    println!("Target:");
    println!("{}", target.to_string());
    assert_eq!(target.live_cells(), positions);
    Ok(())
}

#[test]
fn format_rle_new_with_string() -> Result<(), FormatError> {
    let input_pattern = "\
        #N Glider\n\
        x = 3, y = 3\n\
        bo$2bo$3o!\n\
    ";
    let expected_positions = vec![(1, 0), (2, 1), (0, 2), (1, 2), (2, 2)];
    do_new_test_with_string(input_pattern, &expected_positions)
}

#[test]
fn format_rle_build() -> Result<(), FormatError> {
    let pattern = vec![(0, 0), (1, 0), (2, 0), (1, 1)];
    let name = Some("T-tetromino".to_string());
    let comment = Some("----".to_string());
    let rule = Some(Rule::conways_life());
    do_build_test(&pattern, name, None, comment, rule)
}
