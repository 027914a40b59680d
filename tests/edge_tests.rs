use spanning_trees::edge::{parse_edge, EdgeError};

#[test]
fn parses_plain_edge() {
    assert_eq!(parse_edge("(1,2)"), Ok((1, 2)));
    assert_eq!(parse_edge("(10,0)"), Ok((10, 0)));
    assert_eq!(parse_edge("(+3,4)"), Ok((3, 4)));
    assert_eq!(parse_edge("x(5,6)y"), Ok((5, 6)));
}

#[test]
fn rejects_missing_delimiters() {
    assert_eq!(parse_edge("1,2)"), Err(EdgeError::Malformed));
    assert_eq!(parse_edge("(1,2"), Err(EdgeError::Malformed));
    assert_eq!(parse_edge("(1 2)"), Err(EdgeError::Malformed));
    assert_eq!(parse_edge(""), Err(EdgeError::Malformed));
}

#[test]
fn rejects_out_of_order_delimiters() {
    assert_eq!(parse_edge(")1,2("), Err(EdgeError::Malformed));
    assert_eq!(parse_edge("(1)2,"), Err(EdgeError::Malformed));
}

#[test]
fn rejects_bad_numbers() {
    assert_eq!(parse_edge("(a,2)"), Err(EdgeError::BadNumber));
    assert_eq!(parse_edge("(1,-2)"), Err(EdgeError::BadNumber));
    assert_eq!(parse_edge("(,2)"), Err(EdgeError::BadNumber));
    assert_eq!(parse_edge("( 1,2)"), Err(EdgeError::BadNumber));
    assert_eq!(parse_edge("(+,2)"), Err(EdgeError::BadNumber));
    assert_eq!(
        parse_edge("(99999999999999999999999,1)"),
        Err(EdgeError::BadNumber)
    );
}

#[test]
fn largest_number_is_accepted() {
    let s = format!("({},0)", usize::MAX);
    assert_eq!(parse_edge(&s), Ok((usize::MAX, 0)));
}

#[test]
fn error_messages() {
    assert_eq!(EdgeError::Malformed.message(), "Malformed edge");
    assert!(!EdgeError::BadNumber.message().is_empty());
}
