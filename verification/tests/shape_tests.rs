use stones::shape::kind_of;
use stones::shape::parse_number;
use stones::shape::parse_shape;
use stones::shape::split_fields;
use stones::shape::BoardKind;
use stones::shape::ShapeError;

fn chars(text: &str) -> Vec<char> {
    text.chars().collect()
}

#[test]
fn a_name_with_its_numbers_is_a_shape() {
    let shape = parse_shape("grid:19:13").unwrap();
    assert_eq!(shape.kind, BoardKind::Grid);
    assert_eq!(shape.args, vec![19, 13]);
    let shape = parse_shape("donut:13:13:10:3").unwrap();
    assert_eq!(shape.kind, BoardKind::Donut);
    assert_eq!(shape.args, vec![13, 13, 10, 3]);
    let shape = parse_shape("pack").unwrap();
    assert_eq!(shape.kind, BoardKind::Pack);
    assert!(shape.args.is_empty());
    let shape = parse_shape("pack2").unwrap();
    assert_eq!(shape.kind, BoardKind::Pack2);
    let shape = parse_shape("loop:+4").unwrap();
    assert_eq!(shape.kind, BoardKind::Loop);
    assert_eq!(shape.args, vec![4]);
}

#[test]
fn every_kind_has_its_name_and_its_count() {
    let kinds = [
        ("square", BoardKind::Square, 1),
        ("diamond", BoardKind::Diamond, 1),
        ("grid", BoardKind::Grid, 2),
        ("loop", BoardKind::Loop, 1),
        ("hex", BoardKind::Hex, 1),
        ("honeycomb", BoardKind::Honeycomb, 1),
        ("sixfourthree", BoardKind::Sixfourthree, 1),
        ("turtle", BoardKind::Turtle, 2),
        ("wheels", BoardKind::Wheels, 2),
        ("donut", BoardKind::Donut, 4),
        ("conga", BoardKind::Conga, 1),
        ("pack", BoardKind::Pack, 0),
        ("pack2", BoardKind::Pack2, 0),
    ];
    for (name, kind, count) in kinds {
        assert_eq!(kind_of(&chars(name)), Some(kind));
        assert_eq!(kind.arity(), count);
    }
    assert_eq!(kind_of(&chars("Square")), None);
    assert_eq!(kind_of(&chars("")), None);
    assert_eq!(kind_of(&chars("pack3")), None);
}

#[test]
fn a_name_that_no_kind_has_is_refused() {
    assert_eq!(parse_shape("torus:3").err(), Some(ShapeError::NoSuchKind));
    assert_eq!(parse_shape("").err(), Some(ShapeError::NoSuchKind));
    assert_eq!(parse_shape(":3").err(), Some(ShapeError::NoSuchKind));
    assert_eq!(parse_shape("torus:x:y").err(), Some(ShapeError::NoSuchKind));
}

#[test]
fn a_wrong_count_of_numbers_is_refused_first() {
    assert_eq!(
        parse_shape("grid:19").err(),
        Some(ShapeError::WrongCount { kind: BoardKind::Grid, takes: 2, given: 1 })
    );
    assert_eq!(
        parse_shape("square").err(),
        Some(ShapeError::WrongCount { kind: BoardKind::Square, takes: 1, given: 0 })
    );
    assert_eq!(
        parse_shape("pack:1").err(),
        Some(ShapeError::WrongCount { kind: BoardKind::Pack, takes: 0, given: 1 })
    );
    assert_eq!(
        parse_shape("loop:x:y").err(),
        Some(ShapeError::WrongCount { kind: BoardKind::Loop, takes: 1, given: 2 })
    );
    assert_eq!(
        parse_shape("loop:4:").err(),
        Some(ShapeError::WrongCount { kind: BoardKind::Loop, takes: 1, given: 2 })
    );
}

#[test]
fn a_field_that_is_no_number_is_refused() {
    assert_eq!(parse_shape("grid:a:3").err(), Some(ShapeError::NotANumber { index: 0 }));
    assert_eq!(parse_shape("grid:3:b").err(), Some(ShapeError::NotANumber { index: 1 }));
    assert_eq!(parse_shape("grid:a:b").err(), Some(ShapeError::NotANumber { index: 0 }));
    assert_eq!(parse_shape("loop:").err(), Some(ShapeError::NotANumber { index: 0 }));
    assert_eq!(parse_shape("loop:-4").err(), Some(ShapeError::NotANumber { index: 0 }));
    assert_eq!(parse_shape("loop: 4").err(), Some(ShapeError::NotANumber { index: 0 }));
}

#[test]
fn numbers_are_decimal_and_fit_the_machine() {
    assert_eq!(parse_number(&chars("0")), Some(0));
    assert_eq!(parse_number(&chars("007")), Some(7));
    assert_eq!(parse_number(&chars("361")), Some(361));
    assert_eq!(parse_number(&chars("+361")), Some(361));
    assert_eq!(parse_number(&chars("")), None);
    assert_eq!(parse_number(&chars("+")), None);
    assert_eq!(parse_number(&chars("++1")), None);
    assert_eq!(parse_number(&chars("1+")), None);
    assert_eq!(parse_number(&chars("12a")), None);
    assert_eq!(parse_number(&chars("1.5")), None);
    let most = usize::MAX.to_string();
    assert_eq!(parse_number(&chars(&most)), Some(usize::MAX));
    assert_eq!(parse_number(&chars(&format!("{}0", most))), None);
    let mut over = chars(&most);
    let last = over.pop().unwrap();
    over.push(((last as u8) + 1) as char);
    assert_eq!(parse_number(&over), None);
    for text in ["0", "17", "+5", "x", "", "99999999999999999999999999"] {
        assert_eq!(parse_number(&chars(text)), text.parse::<usize>().ok());
    }
}

#[test]
fn colons_separate_the_fields() {
    assert_eq!(split_fields("grid:19:13"), vec![chars("grid"), chars("19"), chars("13")]);
    assert_eq!(split_fields(""), vec![chars("")]);
    assert_eq!(split_fields(":"), vec![chars(""), chars("")]);
    assert_eq!(split_fields("a::b:"), vec![chars("a"), chars(""), chars("b"), chars("")]);
    for text in ["pack", "a:b", "::", "x:"] {
        let expected: Vec<Vec<char>> = text.split(":").map(chars).collect();
        assert_eq!(split_fields(text), expected);
    }
}
