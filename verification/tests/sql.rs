use semcast::sql::clause::{split_clause, RECALL, SIMILARITY};
use semcast::sql::ddl::{parse_create_index, parse_field_type_str};
use semcast::types::FieldType;

fn clause(statement: &str, keyword: &str) -> Option<(String, f64)> {
    split_clause(statement, keyword).map(|c| (c.statement, f64::from_bits(c.number.bits)))
}

#[test]
fn a_trailing_clause_is_taken_off() {
    assert_eq!(
        clause("SELECT 1 FROM t WHERE means(x, 'y')\nwith  Recall 0.9 ", RECALL),
        Some(("SELECT 1 FROM t WHERE means(x, 'y')".to_owned(), 0.9))
    );
    assert_eq!(
        clause("SELECT 1 WITH SIMILARITY .75", SIMILARITY),
        Some(("SELECT 1".to_owned(), 0.75))
    );
    assert_eq!(clause("SELECT 1 WITH SIMILARITY .75", RECALL), None);
    assert_eq!(clause("SELECT 1 WITH RECALL", RECALL), None);
    assert_eq!(clause("SELECT 1 WITH RECALL most", RECALL), None);
    assert_eq!(clause("", RECALL), None);
}

#[test]
fn a_clause_in_quotes_or_comments_is_none() {
    assert_eq!(clause("SELECT 1 -- WITH RECALL 0.9", RECALL), None);
    assert_eq!(clause("SELECT 'a WITH RECALL 0.9", RECALL), None);
    assert_eq!(clause("SELECT 1 /* WITH RECALL 0.9", RECALL), None);
    assert_eq!(
        clause("SELECT 'WITH RECALL 0.1' WITH RECALL 0.9", RECALL),
        Some(("SELECT 'WITH RECALL 0.1'".to_owned(), 0.9))
    );
}

#[test]
fn field_types_are_read_as_they_are_declared() {
    let shown = |spec: &str| parse_field_type_str(spec).map(|ty| format!("{ty:?}"));
    assert_eq!(shown(" text "), Ok("Text".to_owned()));
    assert_eq!(shown("INT"), Ok("Int".to_owned()));
    assert_eq!(shown("Real"), Ok("Real".to_owned()));
    assert_eq!(shown("BOOL[] []"), Ok("List(List(Bool))".to_owned()));
    assert_eq!(
        shown("ONEOF(none, idea ,shipped)"),
        Ok("OneOf([\"none\", \"idea\", \"shipped\"])".to_owned())
    );
    assert_eq!(
        shown("level (low, high)[]"),
        Ok("List(Level([\"low\", \"high\"]))".to_owned())
    );
    for spec in ["VARCHAR", "ONEOF()", "ONEOF(a,,b)", "ONEOF a", "REAL CHECK (1)", "[]", ""] {
        assert_eq!(shown(spec), Err(format!("unknown field type {spec}")));
    }
}

#[test]
fn a_number_may_have_bounds() {
    match parse_field_type_str("REAL CHECK ( -0.5 .. 1 )") {
        Ok(FieldType::RealBounded { min, max }) => {
            assert_eq!(f64::from_bits(min.bits), -0.5);
            assert_eq!(f64::from_bits(max.bits), 1.0);
        }
        other => panic!("{other:?}"),
    }
}

#[test]
fn an_index_is_created_on_a_column() {
    assert_eq!(
        parse_create_index("create  semantic index ON meetings ( transcript )"),
        Some(("meetings".to_owned(), "transcript".to_owned()))
    );
    assert_eq!(parse_create_index("CREATE SEMANTIC INDEX ON meetings"), None);
    assert_eq!(parse_create_index("CREATE INDEX ON meetings(transcript)"), None);
}
