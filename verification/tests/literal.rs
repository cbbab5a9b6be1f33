use crypto_ticker::literal::{scan, Scanned};

fn read(text: &str) -> Option<(bool, String, i128)> {
    let chars: Vec<char> = text.chars().collect();
    match scan(&chars) {
        Some(Scanned::Number { negative, digits, exponent }) => {
            let written: String = digits.iter().rev().map(|d| char::from(b'0' + d)).collect();
            Some((negative, written, exponent))
        }
        _ => None,
    }
}

fn number(negative: bool, digits: &str, exponent: i128) -> Option<(bool, String, i128)> {
    Some((negative, digits.to_string(), exponent))
}

#[test]
fn coefficient_and_exponent() {
    assert_eq!(read("0"), number(false, "0", 0));
    assert_eq!(read("1500"), number(false, "1500", 0));
    assert_eq!(read("-3.2"), number(true, "32", -1));
    assert_eq!(read("+0012.500"), number(false, "0012500", -3));
    assert_eq!(read(".5"), number(false, "5", -1));
    assert_eq!(read("5."), number(false, "5", 0));
    assert_eq!(read("1e3"), number(false, "1", 3));
    assert_eq!(read("1.25E-3"), number(false, "125", -5));
    assert_eq!(read("7e+05"), number(false, "7", 5));
    assert_eq!(read("-.5e-1"), number(true, "5", -2));
}

#[test]
fn exponents_beyond_the_limit_are_clamped() {
    let limit: i128 = 1 << 99;
    assert_eq!(read("1e633825300114114700748351602688"), number(false, "1", limit));
    assert_eq!(read("1e633825300114114700748351602687"), number(false, "1", limit - 1));
    assert_eq!(read("1e99999999999999999999999999999999999999999999"), number(false, "1", limit));
    assert_eq!(read("1e-99999999999999999999999999999999999999999999"), number(false, "1", -limit));
    assert_eq!(read("1.5e-633825300114114700748351602688"), number(false, "15", -limit));
}

#[test]
fn words() {
    for text in ["inf", "INF", "Inf", "infinity", "INFINITY", "InFiNiTy", "+inf"] {
        let chars: Vec<char> = text.chars().collect();
        assert!(matches!(scan(&chars), Some(Scanned::Infinity { negative: false })), "{text}");
    }
    let chars: Vec<char> = "-Infinity".chars().collect();
    assert!(matches!(scan(&chars), Some(Scanned::Infinity { negative: true })));
    for text in ["nan", "NaN", "NAN", "-nan", "+NaN"] {
        let chars: Vec<char> = text.chars().collect();
        assert!(matches!(scan(&chars), Some(Scanned::NotANumber)), "{text}");
    }
}

#[test]
fn what_is_no_literal() {
    for text in [
        "", "+", "-", ".", "+.", "e", "e5", ".e5", "1e", "1e+", "1e-", "1e5.0", "1e 5", " 1", "1 ",
        "1,5", "1_0", "--1", "+-1", "1-", "1..2", "1.2.3", "0x10", "in", "infi", "infinit",
        "infinityy", "na", "nann", "i", "n", "1inf", "inf1", "١", "1e٣", "½",
    ] {
        let chars: Vec<char> = text.chars().collect();
        assert!(scan(&chars).is_none(), "{text:?}");
    }
}
