use stasis::database::{handle_command, put_line, Database, Request, Response};

fn parse_ok(line: &str) -> Request {
    match Request::parse(line) {
        Ok(r) => r,
        Err(e) => panic!("unexpected error: {}", e),
    }
}

fn parse_err(line: &str) -> String {
    match Request::parse(line) {
        Ok(_) => panic!("expected an error for {:?}", line),
        Err(e) => e,
    }
}

#[test]
fn parses_get() {
    match parse_ok("GET foo") {
        Request::Get { key } => assert_eq!(key, "foo"),
        _ => panic!("expected GET"),
    }
}

#[test]
fn parses_set_with_spaces_in_value() {
    match parse_ok("SET foo bar baz") {
        Request::Put { key, value } => {
            assert_eq!(key, "foo");
            assert_eq!(value, "bar baz");
        }
        _ => panic!("expected SET"),
    }
}

#[test]
fn get_with_empty_key_is_accepted() {
    match parse_ok("GET ") {
        Request::Get { key } => assert_eq!(key, ""),
        _ => panic!("expected GET"),
    }
}

#[test]
fn get_without_key_is_rejected() {
    assert_eq!(parse_err("GET"), "Bad GET request.\nUsage: GET <key>");
}

#[test]
fn get_with_extra_argument_is_rejected() {
    assert_eq!(
        parse_err("GET a b"),
        "Bad GET request. Unexpected argument.\nUsage: GET <key>"
    );
}

#[test]
fn set_without_value_is_rejected() {
    assert_eq!(parse_err("SET a"), "Bad SET request.\nUsage: SET <key> <value>");
    assert_eq!(parse_err("SET"), "Bad SET request.\nUsage: SET <key> <value>");
}

#[test]
fn unknown_command_is_named() {
    assert_eq!(parse_err("DEL a"), "Received unknown command: DEL");
    assert_eq!(parse_err("get a"), "Received unknown command: get");
    assert_eq!(parse_err(""), "Received unknown command: ");
}

#[test]
fn non_ascii_text_is_kept() {
    match parse_ok("SET clé välue ✓") {
        Request::Put { key, value } => {
            assert_eq!(key, "clé");
            assert_eq!(value, "välue ✓");
        }
        _ => panic!("expected SET"),
    }
}

#[test]
fn entry_response_text() {
    let r = Response::Entry { key: "foo".to_string(), value: "bar".to_string() };
    assert_eq!(r.to_bytes(), "foo => bar");
}

#[test]
fn put_response_text() {
    let r = Response::Put { key: "k".to_string(), value: "v".to_string(), previous: None };
    assert_eq!(r.to_bytes(), "k: v; previous: None");
    let r = Response::Put {
        key: "k".to_string(),
        value: "v".to_string(),
        previous: Some("old".to_string()),
    };
    assert_eq!(r.to_bytes(), "k: v; previous: Some(\"old\")");
}

#[test]
fn put_response_escapes_previous_value() {
    let r = Response::Put {
        key: "k".to_string(),
        value: "v".to_string(),
        previous: Some("a\"b\n".to_string()),
    };
    assert_eq!(r.to_bytes(), "k: v; previous: Some(\"a\\\"b\\n\")");
}

#[test]
fn put_line_takes_quoted_text() {
    assert_eq!(put_line("k", "v", &Some("\"q\"".to_string())), "k: v; previous: Some(\"q\")");
    assert_eq!(put_line("k", "v", &None), "k: v; previous: None");
}

#[test]
fn error_response_text() {
    let r = Response::Error { message: "boom".to_string() };
    assert_eq!(r.to_bytes(), "error: boom");
}

#[test]
fn database_get_and_set() {
    let mut db = Database::new();
    assert_eq!(db.get("foo"), None);
    assert_eq!(db.set("foo", "bar"), None);
    assert_eq!(db.get("foo"), Some("bar".to_string()));
    assert_eq!(db.set("foo", "baz"), Some("bar".to_string()));
    assert_eq!(db.get("foo"), Some("baz".to_string()));
}

#[test]
fn commands_run_against_the_table() {
    let mut db = Database::new();
    assert_eq!(handle_command("GET foo", &mut db).to_bytes(), "error: Missing key! foo");
    assert_eq!(handle_command("SET foo bar", &mut db).to_bytes(), "foo: bar; previous: None");
    assert_eq!(
        handle_command("SET foo baz", &mut db).to_bytes(),
        "foo: baz; previous: Some(\"bar\")"
    );
    assert_eq!(handle_command("GET foo", &mut db).to_bytes(), "foo => baz");
    assert_eq!(
        handle_command("PING", &mut db).to_bytes(),
        "error: Received unknown command: PING"
    );
}
