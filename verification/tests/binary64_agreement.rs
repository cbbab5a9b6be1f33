use crypto_ticker::binary64::Binary64;

fn agrees(text: &str) {
    let ours = Binary64::parse(text);
    match text.parse::<f64>() {
        Ok(theirs) => {
            let ours = ours.unwrap_or_else(|| panic!("{text:?} was refused"));
            if theirs.is_nan() {
                assert_eq!(ours, Binary64::NotANumber, "{text:?}");
            } else {
                assert_eq!(ours.to_bits(), theirs.to_bits(), "{text:?}");
            }
            assert_eq!(ours.to_two_places(), format!("{:.2}", theirs), "{text:?}");
        }
        Err(_) => assert_eq!(ours, None, "{text:?}"),
    }
}

#[test]
fn parse_agrees_on_plain_numbers() {
    for text in [
        "0", "1", "5", "-3.2", "1500", "999", "2500000", "1234.5", "0.1", "0.2", "0.3", "2.675",
        "0.015", "0.125", "0.375", "1e3", "1E3", "1e-3", "+7", "-0", "-0.0", ".5", "5.", "1.e2",
        "123456789012345678901234567890", "0.000001", "9007199254740993", "9007199254740992",
        "9007199254740991", "4.35", "1000000", "1000000.0000000001", "1000.0000000000001",
    ] {
        agrees(text);
    }
}

#[test]
fn parse_agrees_on_extremes() {
    for text in [
        "1.7976931348623157e308", "1.7976931348623158e308", "1.7976931348623159e308", "1e308",
        "1e309", "2e308", "4.9e-324", "5e-324", "2.4703282292062327e-324",
        "2.4703282292062328e-324", "2.47e-324", "1e-400", "1e400", "-1e400", "-1e-400",
        "2.2250738585072014e-308", "2.2250738585072011e-308", "2.2250738585072009e-308",
        "1e99999999999999999999999999", "1e-99999999999999999999999999",
        "0e99999999999999999999999999", "17976931348623157000000000000000000000000000000000000000000000000000000000000000000000000000000000000000000000000000000000000000000000000000000000000000000000000000000000000000000000000000000000000000000000000000000000000000000000000000000000000000000000000000000000000000000000000000000000000000",
    ] {
        agrees(text);
    }
}

#[test]
fn parse_agrees_on_words_and_refusals() {
    for text in [
        "inf", "-inf", "+inf", "INF", "Infinity", "-infinity", "iNfInItY", "nan", "NaN", "-nan",
        "+NAN", "", "+", "-", ".", "e5", "1e", "1e+", "1e-", "abc", "x", "bad", " 1", "1 ", "1,5",
        "--1", "+-1", "1..2", "1.2.3", "0x10", "infinit", "infinityy", "na", "1e5.5", "١٢٣", "1_000",
        "1f", "e", ".e1", "-.e1", "-.5e-1",
    ] {
        agrees(text);
    }
}

fn number(text: &str) -> (Binary64, f64) {
    (Binary64::parse(text).unwrap(), text.parse().unwrap())
}

const NUMBERS: [&str; 40] = [
    "0", "-0", "5e-324", "-5e-324", "1e-320", "2.2250738585072014e-308", "1e-310", "1e-300",
    "1e-10", "0.001", "0.5", "0.999", "1", "1.0000000000000002", "3", "999", "999.9999999999999",
    "1000", "1000.0000000000001", "1001", "15625", "65536", "999999", "999999.9999999999",
    "1000000", "1000000.0000000001", "1000001", "4294967295", "4294967296", "9007199254740992",
    "1e22", "1e100", "8.98846567431158e307", "1.7976931348623157e308", "inf", "-inf", "-1",
    "-1000.5", "-1e300", "123456.789",
];

#[test]
fn long_literals_round_to_the_nearest() {
    for text in [
        // Half way between 1 and the next number above it, and a little to each side.
        "1.00000000000000011102230246251565404236316680908203125",
        "1.00000000000000011102230246251565404236316680908203124999",
        "1.00000000000000011102230246251565404236316680908203125000001",
        // Half way between the next two: the tie goes up to the even mantissa.
        "1.00000000000000033306690738754696212708950042724609375",
        "1.000000000000000333066907387546962127089500427246093749",
        "0.1000000000000000055511151231257827021181583404541015625",
        "0.10000000000000000555111512312578270211815834045410156250000000000000000000000000001",
        "179769313486231580793728971405303415079934132710037826936173778980444968292764750946649017977587207096330286416692887910946555547851940402630657488671505820681908902000708383676273854845817711531764475730270069855571366959622842914819860834936475292719074168444365510704342711559699508093042880177904174497791.9999999999999999999999",
        "179769313486231580793728971405303415079934132710037826936173778980444968292764750946649017977587207096330286416692887910946555547851940402630657488671505820681908902000708383676273854845817711531764475730270069855571366959622842914819860834936475292719074168444365510704342711559699508093042880177904174497792",
        "0.000000000000000000000000000000000000000000000000000000000000000000000000000000000000000000000000000000000000000000000000000000000000000000000000000000000000000000000000000000000000000000000000000000000000000000000000000000000000000000000000000000000000000000000000000000000000000000000000000000000000000000000000000000000000000247032822920623272088284396434110686182529901307162382212792841250337753635104375932649918180817996189898282347722858865463328355177969898199387398005390939063150356595155702263922908583924491051844359318028499365361525003193704576782492193656236698636584807570015857692699037063119282795585513329278343384093519780155312465972635795746227664652728272200563740064854999770965994704540208281662262378573934507363390079677619305775067401763246736009689513405355374585166611342237666786041621596804619144672918403005300575308490487653917113865916462395249126236538818796362393732804238910186723484976682350898633885879256283027559956575244555072551893136908362547791869486679949683240497058210285131854513962138377228261454376934125320985913276672363281250000000001",
        "0.000000000000000000000000000000000000000000000000000000000000000000000000000000000000000000000000000000000000000000000000000000000000000000000000000000000000000000000000000000000000000000000000000000000000000000000000000000000000000000000000000000000000000000000000000000000000000000000000000000000000000000000000000000000000000247032822920623272088284396434110686182529901307162382212792841250337753635104375932649918180817996189898282347722858865463328355177969898199387398005390939063150356595155702263922908583924491051844359318028499365361525003193704576782492193656236698636584807570015857692699037063119282795585513329278343384093519780155312465972635795746227664652728272200563740064854999770965994704540208281662262378573934507363390079677619305775067401763246736009689513405355374585166611342237666786041621596804619144672918403005300575308490487653917113865916462395249126236538818796362393732804238910186723484976682350898633885879256283027559956575244555072551893136908362547791869486679949683240497058210285131854513962138377228261454376934125320985913276672363281250",
        "00000000000000000000000000000000000000000000000000012.50000000000000000000000000000000000000000000000000000",
        "0.00000000000000000000000000000000000000000000000000000e500",
        "100000000000000000000000000000000000000000000000000000000000000000000000000000000e-80",
    ] {
        agrees(text);
    }
}

#[test]
fn zeros_and_their_signs() {
    assert_eq!(
        Binary64::parse("0"),
        Some(Binary64::Finite { negative: false, mantissa: 0, exponent: -1074 })
    );
    assert_eq!(
        Binary64::parse("-0.000e7"),
        Some(Binary64::Finite { negative: true, mantissa: 0, exponent: -1074 })
    );
    assert_eq!(Binary64::parse("-0").unwrap().to_bits(), 0x8000_0000_0000_0000);
}

#[test]
fn mantissa_and_exponent_of_plain_numbers() {
    assert_eq!(
        Binary64::parse("1"),
        Some(Binary64::Finite { negative: false, mantissa: 1 << 52, exponent: -52 })
    );
    assert_eq!(
        Binary64::parse("-2.5"),
        Some(Binary64::Finite { negative: true, mantissa: 5 << 50, exponent: -51 })
    );
    assert_eq!(
        Binary64::parse("5e-324"),
        Some(Binary64::Finite { negative: false, mantissa: 1, exponent: -1074 })
    );
    assert_eq!(
        Binary64::parse("1.7976931348623157e308"),
        Some(Binary64::Finite { negative: false, mantissa: (1 << 53) - 1, exponent: 971 })
    );
    assert_eq!(Binary64::parse("1e309"), Some(Binary64::Infinite { negative: false }));
    assert_eq!(Binary64::parse("-INF"), Some(Binary64::Infinite { negative: true }));
    assert_eq!(Binary64::parse("nan"), Some(Binary64::NotANumber));
    assert_eq!(Binary64::parse("one"), None);
}

#[test]
fn comparison_with_whole_numbers() {
    for text in NUMBERS {
        let (ours, theirs) = number(text);
        for bound in [0u32, 1, 2, 999, 1000, 1001, 65536, 999_999, 1_000_000, u32::MAX] {
            assert_eq!(ours.exceeds(bound), theirs > bound as f64, "{text} > {bound}");
        }
        assert_eq!(ours.is_negative(), theirs < 0.0, "{text}");
    }
    assert!(!Binary64::NotANumber.exceeds(0));
    assert!(!Binary64::NotANumber.is_negative());
}

#[test]
fn division_by_whole_numbers() {
    for text in NUMBERS {
        let (ours, theirs) = number(text);
        for divisor in [1u32, 2, 3, 7, 10, 1000, 15625, 1_000_000, 999_983, u32::MAX] {
            let quotient = ours.divided_by(divisor);
            assert_eq!(quotient.to_bits(), (theirs / divisor as f64).to_bits(), "{text} / {divisor}");
        }
    }
    assert_eq!(Binary64::NotANumber.divided_by(3), Binary64::NotANumber);
}

#[test]
fn ranks_stand_as_the_numbers_do() {
    for a in NUMBERS {
        for b in NUMBERS {
            let (ours_a, theirs_a) = number(a);
            let (ours_b, theirs_b) = number(b);
            assert_eq!(ours_a.rank_value() < ours_b.rank_value(), theirs_a < theirs_b, "{a} < {b}");
            assert_eq!(ours_a.rank_value() == ours_b.rank_value(), theirs_a == theirs_b, "{a} == {b}");
        }
    }
    assert_eq!(Binary64::NotANumber.rank_value(), 0);
}

#[test]
fn encoding_of_what_is_no_number() {
    assert_eq!(Binary64::NotANumber.to_bits(), 0x7ff8_0000_0000_0000);
    assert!(f64::from_bits(Binary64::NotANumber.to_bits()).is_nan());
    assert_eq!(Binary64::parse("inf").unwrap().to_bits(), f64::INFINITY.to_bits());
    assert_eq!(Binary64::parse("-inf").unwrap().to_bits(), f64::NEG_INFINITY.to_bits());
}
