use codeio::decimal::{float_debug, float_display};
use codeio::toklabel::tok_label_of;
use codeio::lexer::Tok;

const LITERALS: [&str; 14] = [
    "1.5", "1.50", "007.25", "1.0", "0.0", "100.000", "0.1", "0.0001", "0.00001", "0.000012",
    "10000000000000000.0", "1234.5678", "0.30", "99999.99999",
];

#[test]
fn display_matches_f64_display() {
    for t in LITERALS {
        let x: f64 = t.parse().unwrap();
        assert_eq!(float_display(t), format!("{}", x), "literal {}", t);
    }
}

#[test]
fn debug_matches_f64_debug() {
    for t in LITERALS {
        let x: f64 = t.parse().unwrap();
        assert_eq!(float_debug(t), format!("{:?}", x), "literal {}", t);
    }
}

#[test]
fn float_token_label_prints_the_number() {
    assert_eq!(tok_label_of(&Tok::Float("1.50".to_string())), "Float(1.5)");
    assert_eq!(float_debug("0.00001"), "1e-5");
    assert_eq!(float_display("1.0"), "1");
}
