use knf::scan::{scan, Piece, Spelled, Syntax};

fn lit(s: &str) -> Piece {
    Piece::Literal(s.to_string())
}

fn re(s: &str) -> Piece {
    Piece::Ref(s.to_string())
}

fn malformed(spelling: &str, error: Syntax) -> Piece {
    Piece::Malformed { spelling: spelling.to_string(), error }
}

#[test]
fn a_string_without_a_dollar_scans_to_nothing() {
    assert_eq!(scan("plain text"), []);
    assert_eq!(scan(""), []);
}

#[test]
fn a_whole_string_reference_is_one_piece() {
    assert_eq!(scan("${db.host}"), [re("db.host")]);
    assert_eq!(scan("${env:PORT}"), [re("env:PORT")]);
}

#[test]
fn embedded_references_keep_their_surroundings() {
    assert_eq!(
        scan("http://${host}:${port}/health"),
        [lit("http://"), re("host"), lit(":"), re("port"), lit("/health")]
    );
}

#[test]
fn adjacent_references_have_no_literal_between_them() {
    assert_eq!(scan("${a}${b}"), [re("a"), re("b")]);
}

#[test]
fn dollar_dollar_is_a_literal_dollar() {
    assert_eq!(scan("$$"), [lit("$")]);
    assert_eq!(scan("$${a}"), [lit("$"), lit("{a}")]);
    assert_eq!(scan("a$$b"), [lit("a"), lit("$"), lit("b")]);
}

#[test]
fn a_bare_dollar_is_ordinary_text() {
    assert_eq!(scan("USD $5"), [lit("USD $5")]);
    assert_eq!(scan("$"), [lit("$")]);
    assert_eq!(scan("$ {a}"), [lit("$ {a}")]);
    assert_eq!(scan("a$"), [lit("a$")]);
}

#[test]
fn malformed_references_are_returned_as_pieces() {
    assert_eq!(scan("a ${b"), [lit("a "), malformed("${b", Syntax::Unterminated { offset: 2 })]);
    assert_eq!(scan("${}"), [malformed("${}", Syntax::EmptyRef)]);
    assert_eq!(
        scan("${a${b}}"),
        [malformed("${a${b}", Syntax::Nested { body: "a${b".to_string() }), lit("}")]
    );
}

#[test]
fn scanning_continues_around_malformed_references() {
    assert_eq!(
        scan("${before} ${} ${after}"),
        [re("before"), lit(" "), malformed("${}", Syntax::EmptyRef), lit(" "), re("after")]
    );
    assert_eq!(
        scan("${before} ${after"),
        [re("before"), lit(" "), malformed("${after", Syntax::Unterminated { offset: 10 })]
    );
}

#[test]
fn non_ascii_literals_survive() {
    assert_eq!(scan("héllo ${who} ☃"), [lit("héllo "), re("who"), lit(" ☃")]);
}

#[test]
fn spelling_round_trips_a_reference() {
    assert_eq!(Spelled("db.host".to_string()).to_string(), "${db.host}");
}

#[test]
fn an_unterminated_offset_counts_utf8_bytes() {
    assert_eq!(scan("é ${x"), [lit("é "), malformed("${x", Syntax::Unterminated { offset: 3 })]);
}

#[test]
fn syntax_errors_read_as_their_messages() {
    assert_eq!(Syntax::EmptyRef.to_string(), "empty reference `${}`");
}

#[test]
fn a_spelled_reference_scans_back_to_itself() {
    for body in ["db.host", "env:HOME", "servers[0].host", "a:b"] {
        let spelled = Spelled(body.to_string()).to_string();
        assert_eq!(scan(&spelled), [re(body)], "{body}");
    }
}
