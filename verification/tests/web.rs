use codeio::site::{
    content_length_of, crate_json, field_value, file_json, line_symbol_of, map_json, parse_usize,
    request_target, status_items, status_json,
};
use codeio::web::{
    api_ir, endpoint_head, extract_code, ir_json, json_escape, parse_source, response_head, route,
    Endpoint,
};

#[test]
fn routes_requests() {
    assert_eq!(route("GET", "/"), Endpoint::Index);
    assert_eq!(route("POST", "/run"), Endpoint::Run);
    assert_eq!(route("POST", "/ir"), Endpoint::Ir);
    assert_eq!(route("GET", "/status"), Endpoint::Status);
    assert_eq!(route("GET", "/map"), Endpoint::CodeMap);
    assert_eq!(route("GET", "/run"), Endpoint::NotFound);
    assert_eq!(route("POST", "/"), Endpoint::NotFound);
    assert_eq!(endpoint_head(Endpoint::Index), ("200 OK", "text/html; charset=utf-8"));
    assert_eq!(endpoint_head(Endpoint::Ir), ("200 OK", "application/json"));
    assert_eq!(endpoint_head(Endpoint::NotFound), ("404 Not Found", "text/plain"));
}

#[test]
fn response_head_shape() {
    assert_eq!(
        response_head("200 OK", "application/json", 12),
        "HTTP/1.1 200 OK\r\nContent-Type: application/json\r\nAccess-Control-Allow-Origin: *\r\nContent-Length: 12\r\nConnection: close\r\n\r\n"
    );
}

#[test]
fn extracts_code_with_escapes() {
    assert_eq!(extract_code("{\"code\":\"let x = 1\\nprint(\\\"hi\\\")\"}"), "let x = 1\nprint(\"hi\")");
    assert_eq!(extract_code("{\"code\" : \"a\\tb\\\\c\\qd\"}"), "a\tb\\cqd");
    assert_eq!(extract_code("{\"other\":\"x\"}"), "");
    assert_eq!(extract_code("{\"code\":\"unterminated"), "unterminated");
    assert_eq!(extract_code("{\"code\":\"ends in backslash\\"), "ends in backslash");
}

#[test]
fn json_escapes() {
    assert_eq!(json_escape("a\"b\\c\nd\te\rf"), "a\\\"b\\\\c\\nd\\tef");
    assert_eq!(json_escape("plain"), "plain");
}

#[test]
fn ir_payload_for_program() {
    let body = "{\"code\":\"let x = 1\"}";
    let j = api_ir(body);
    assert!(j.starts_with("{\"ok\":true,\"count\":"));
    assert!(j.contains("\"kind\":\"EFFECT\""));
    assert!(j.contains("\"label\":\"x\""));
    let stmts = parse_source("let x = 1").unwrap();
    let g = codeio::ir::lower(&stmts);
    assert_eq!(j, ir_json(&g));
    assert!(j.contains(&format!("\"count\":{}", g.len())));
}

#[test]
fn ir_payload_for_errors() {
    let j = api_ir("{\"code\":\"let = 1\"}");
    assert!(j.starts_with("{\"ok\":false,\"error\":\""));
    let e = parse_source("let = 1").unwrap_err();
    assert_eq!(j, format!("{{\"ok\":false,\"error\":\"{}\"}}", json_escape(&e)));
    let lex = api_ir("{\"code\":\"let s = \\\"open\"}");
    assert!(lex.starts_with("{\"ok\":false"));
}

#[test]
fn request_line_and_headers() {
    assert_eq!(request_target("GET /status HTTP/1.1\r\n"), ("GET".to_string(), "/status".to_string()));
    assert_eq!(request_target("POST"), ("POST".to_string(), "/".to_string()));
    assert_eq!(request_target("   "), ("".to_string(), "/".to_string()));
    assert_eq!(content_length_of("Content-Length: 42\r\n"), Some(42));
    assert_eq!(content_length_of("content-length:+7"), Some(7));
    assert_eq!(content_length_of("CONTENT-LENGTH: abc"), Some(0));
    assert_eq!(content_length_of("Host: x"), None);
}

#[test]
fn parses_numbers_like_std() {
    for s in ["0", "42", "+9", "007", "18446744073709551615", "", "+", "-1", "1 ", "18446744073709551616", "4a"] {
        assert_eq!(parse_usize(s), s.parse::<usize>().ok(), "input {s:?}");
    }
}

#[test]
fn status_scan_of_registry() {
    let text = "[[feature]]\nname = \"Lexer\"\nstatus = \"live\"\n\n[[feature]]\nname = \"Parser\"\nstatus = \"building\"\n[[feature]]\nname = \"VM\"\nstatus = \"planned\"\n";
    let items = status_items(text);
    assert_eq!(
        items,
        vec![
            ("Lexer".to_string(), "live".to_string()),
            ("Parser".to_string(), "building".to_string()),
            ("VM".to_string(), "planned".to_string()),
        ]
    );
    assert_eq!(
        status_json(text),
        "{\"live\":1,\"building\":1,\"planned\":1,\"features\":[{\"name\":\"Lexer\",\"status\":\"live\"},{\"name\":\"Parser\",\"status\":\"building\"},{\"name\":\"VM\",\"status\":\"planned\"}]}"
    );
    assert_eq!(status_json(""), "{\"live\":0,\"building\":0,\"planned\":0,\"features\":[]}");
    // a status before any name is not recorded
    assert_eq!(status_items("status = \"live\"").len(), 0);
}

#[test]
fn field_values() {
    assert_eq!(field_value("name = \"Lexer\""), "Lexer");
    assert_eq!(field_value("status=live"), "live");
    assert_eq!(field_value("name"), "");
    assert_eq!(field_value("name = \"\"\"x\"\""), "x");
}

#[test]
fn code_map_entries() {
    assert_eq!(line_symbol_of("pub fn serve(bind: &str) {"), Some("{\"name\":\"serve\",\"kind\":\"fn\"}".to_string()));
    assert_eq!(line_symbol_of("    struct Page {"), Some("{\"name\":\"Page\",\"kind\":\"struct\"}".to_string()));
    assert_eq!(line_symbol_of("pub trait ValueBackend"), Some("{\"name\":\"ValueBackend\",\"kind\":\"trait\"}".to_string()));
    assert_eq!(line_symbol_of("fn (x)"), None);
    assert_eq!(line_symbol_of("let x = 1;"), None);
    let f = file_json("lib.rs", "fn a() {}\nenum B { C }\n");
    assert_eq!(
        f,
        "{\"name\":\"lib.rs\",\"loc\":2,\"symbols\":[{\"name\":\"a\",\"kind\":\"fn\"},{\"name\":\"B\",\"kind\":\"enum\"}]}"
    );
    let c = crate_json("codeio-view", &vec![f.clone()]);
    assert_eq!(c, format!("{{\"name\":\"codeio-view\",\"files\":[{}]}}", f));
    assert_eq!(map_json(&vec![c.clone(), c.clone()]), format!("{{\"ok\":true,\"crates\":[{},{}]}}", c, c));
    assert_eq!(map_json(&vec![]), "{\"ok\":true,\"crates\":[]}");
}

#[test]
fn front_end_error_messages() {
    assert_eq!(parse_source("let s = \"open").unwrap_err(), "line 1: unterminated string");
    assert_eq!(parse_source("\n@").unwrap_err(), "line 2: unexpected character '@'");
    assert_eq!(
        parse_source("let \"a\\n\" = 1").unwrap_err(),
        "line 1: expected identifier, found Str(\"a\\n\")"
    );
    assert_eq!(parse_source("let x 1").unwrap_err(), "line 1: expected Eq, found Int(1)");
    assert_eq!(parse_source("a | b").unwrap_err(), "line 1: unexpected '|'");
    assert_eq!(parse_source("\"a\\qb\"").unwrap_err(), "line 1: bad escape \\q");
    assert_eq!(
        parse_source("99999999999999999999").unwrap_err(),
        "line 1: number too large to fit in target type"
    );
    assert_eq!(parse_source("\n\n)").unwrap_err(), "line 3: unexpected token RParen");
}

#[test]
fn escaped_code_reads_back() {
    for code in ["let x = \"a\\b\"\n\tprint(x)", "", "a:b \"q\" {}", "ünï\\cödé"] {
        let body = format!("{{\"code\":\"{}\"}}", json_escape(code));
        assert_eq!(extract_code(&body), code);
    }
    // carriage returns are dropped by escaping
    assert_eq!(extract_code(&format!("{{\"code\":\"{}\"}}", json_escape("a\r\nb"))), "a\nb");
}
