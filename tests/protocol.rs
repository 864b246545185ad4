use protohackers::primes::PrimeOracle;
use protohackers::protocol::{
    error_line, frame_error, frame_response, response_line, Connection, LineInput, Step,
};

fn request(method: &str, integer: Option<i64>) -> LineInput {
    LineInput::Request { method: method.to_string(), integer }
}

/// Runs one line through the connection, consulting the oracle where asked.
fn exchange(conn: &mut Connection, oracle: &PrimeOracle, input: LineInput) -> Step {
    match conn.on_line(input) {
        Step::Query(v) => conn.on_reply(oracle.is_prime(v)),
        other => other,
    }
}

fn written(step: Step) -> String {
    match step {
        Step::Write(t) => t,
        _ => panic!("expected a line to write"),
    }
}

#[test]
fn end_to_end_session() {
    let oracle = PrimeOracle::new(1000);
    let mut conn = Connection::new();
    let line = written(exchange(&mut conn, &oracle, request("isPrime", Some(7))));
    assert_eq!(line, "{\"method\":\"isPrime\",\"prime\":true}\n");
    let line = written(exchange(&mut conn, &oracle, request("isPrime", Some(8))));
    assert_eq!(line, "{\"method\":\"isPrime\",\"prime\":false}\n");
    let line = written(exchange(&mut conn, &oracle, request("isPrime", Some(-5))));
    assert_eq!(line, "{\"method\":\"isPrime\",\"prime\":false}\n");
    match exchange(&mut conn, &oracle, LineInput::Malformed("expected value".to_string())) {
        Step::WriteAndClose(t) => assert_eq!(t, "{\"error\":\"expected value\"}\n"),
        _ => panic!("expected an error line"),
    }
    assert!(conn.is_closed());
}

#[test]
fn same_query_twice_same_answer() {
    let oracle = PrimeOracle::new(100);
    let mut conn = Connection::new();
    let first = written(exchange(&mut conn, &oracle, request("isPrime", Some(1009))));
    let second = written(exchange(&mut conn, &oracle, request("isPrime", Some(1009))));
    assert_eq!(first, second);
    assert_eq!(first, "{\"method\":\"isPrime\",\"prime\":true}\n");
}

#[test]
fn malformed_line_closes_with_one_error() {
    let mut conn = Connection::new();
    match conn.on_line(LineInput::Malformed(String::new())) {
        Step::WriteAndClose(t) => assert_eq!(t, "{\"error\":\"malformed request\"}\n"),
        _ => panic!("expected an error line"),
    }
    assert!(conn.is_closed());
}

#[test]
fn wrong_method_closes_with_error() {
    let mut conn = Connection::new();
    match conn.on_line(request("foo", Some(7))) {
        Step::WriteAndClose(t) => {
            assert_eq!(t, "{\"error\":\"only isPrime is supported as method\"}\n")
        }
        _ => panic!("expected an error line"),
    }
    assert!(conn.is_closed());
}

#[test]
fn non_integer_is_not_prime_and_stays_open() {
    let mut conn = Connection::new();
    let line = written(conn.on_line(request("isPrime", None)));
    assert_eq!(line, "{\"method\":\"isPrime\",\"prime\":false}\n");
    assert!(!conn.is_closed());
    assert!(matches!(conn.on_line(request("isPrime", Some(3))), Step::Query(3)));
}

#[test]
fn end_of_stream_closes_without_writing() {
    let mut conn = Connection::new();
    assert!(matches!(conn.on_line(LineInput::EndOfStream), Step::Close));
    assert!(conn.is_closed());
}

#[test]
fn framing_and_quoting() {
    assert_eq!(frame_error("\"x\""), "{\"error\":\"x\"}\n");
    assert_eq!(frame_response("\"m\"", true), "{\"method\":\"m\",\"prime\":true}\n");
    assert_eq!(error_line("a\"b"), "{\"error\":\"a\\\"b\"}\n");
    assert_eq!(
        response_line("isPrime", false),
        "{\"method\":\"isPrime\",\"prime\":false}\n"
    );
    assert_eq!(
        error_line("t\tn\nq\\u\u{1}\u{1f}"),
        "{\"error\":\"t\\tn\\nq\\\\u\\u0001\\u001f\"}\n"
    );
    assert_eq!(error_line("\u{8}\u{c}\r"), "{\"error\":\"\\b\\f\\r\"}\n");
    assert_eq!(error_line("é/"), "{\"error\":\"é/\"}\n");
}

#[test]
fn interleaved_connections_keep_their_own_answers() {
    let oracle = PrimeOracle::new(100);
    let mut first = Connection::new();
    let mut second = Connection::new();
    assert!(matches!(first.on_line(request("isPrime", Some(11))), Step::Query(11)));
    let line = written(exchange(&mut second, &oracle, request("isPrime", Some(12))));
    assert_eq!(line, "{\"method\":\"isPrime\",\"prime\":false}\n");
    let line = written(first.on_reply(oracle.is_prime(11)));
    assert_eq!(line, "{\"method\":\"isPrime\",\"prime\":true}\n");
    assert!(!first.is_closed());
    assert!(!second.is_closed());
}
