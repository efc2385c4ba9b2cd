use chainstream::range::{Range, RangeError};

fn min_max(s: &str) -> Result<(i32, Option<i32>), RangeError> {
    s.parse::<Range>()?.min_max()
}

#[test]
fn exclusive_range_ends_before_upper_bound() {
    assert_eq!(min_max("5..10"), Ok((5, Some(9))));
}

#[test]
fn inclusive_range_ends_at_upper_bound() {
    assert_eq!(min_max("5..=10"), Ok((5, Some(10))));
}

#[test]
fn open_range_starts_after_genesis() {
    assert_eq!(Range::parse(".."), Ok(Range::new(None, None, true)));
    assert_eq!(min_max(".."), Ok((1, None)));
    assert_eq!(min_max("..="), Ok((1, None)));
}

#[test]
fn open_upper_bound_is_inclusive() {
    assert_eq!(Range::parse("7.."), Ok(Range::new(Some(7), None, true)));
    assert_eq!(min_max("7.."), Ok((7, None)));
}

#[test]
fn open_lower_bound_defaults_to_one() {
    assert_eq!(min_max("..4"), Ok((1, Some(3))));
    assert_eq!(min_max("..=4"), Ok((1, Some(4))));
}

#[test]
fn genesis_lower_bound_is_refused() {
    assert_eq!(Range::parse("0..5"), Ok(Range::new(Some(0), Some(5), false)));
    assert_eq!(min_max("0..5"), Err(RangeError::GenesisBlock));
}

#[test]
fn reversed_range_is_refused() {
    assert_eq!(Range::parse("10..5"), Err(RangeError::InvalidRange));
}

#[test]
fn negative_lower_bound_is_refused() {
    assert_eq!(min_max("-1..5"), Err(RangeError::NegativeBlockNumber));
}

#[test]
fn expression_without_separator_is_malformed() {
    assert_eq!(Range::parse("5-10"), Err(RangeError::Malformed));
    assert_eq!(Range::parse(""), Err(RangeError::Malformed));
}

#[test]
fn non_integer_bounds_are_refused() {
    assert_eq!(Range::parse("a..5"), Err(RangeError::InvalidBound));
    assert_eq!(Range::parse("1..x"), Err(RangeError::InvalidBound));
    assert_eq!(Range::parse("..."), Err(RangeError::InvalidBound));
    assert_eq!(Range::parse("1..99999999999"), Err(RangeError::InvalidBound));
}

#[test]
fn more_than_two_pieces_is_invalid() {
    assert_eq!(Range::parse("1..2..3"), Err(RangeError::InvalidRange));
}

#[test]
fn signed_and_extreme_bounds_parse() {
    assert_eq!(Range::parse("+3..2147483647"), Ok(Range::new(Some(3), Some(2147483647), false)));
    assert_eq!(
        Range::parse("-2147483648..=-2147483648"),
        Ok(Range::new(Some(-2147483648), Some(-2147483648), true))
    );
    assert_eq!(min_max("..-2147483648"), Err(RangeError::InvalidRange));
}
