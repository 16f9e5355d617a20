use qqt_dataset::datavalue::DataValue;
use qqt_dataset::number::is_number_text;
use qqt_dataset::text::{space_char, trim};

/// Whether the text stands for a finite number when it is read as a
/// double precision number.
fn reads_as_finite(text: &str) -> bool {
    match text.parse::<f64>() {
        Ok(value) => value.is_finite(),
        Err(_) => false,
    }
}

fn limit_text() -> String {
    String::from(
        "179769313486231580793728971405303415079934132710037826936173778980444968292764750946649017977587207096330286416692887910946555547851940402630657488671505820681908902000708383676273854845817711531764475730270069855571366959622842914819860834936475292719074168444365510704342711559699508093042880177904174497792",
    )
}

fn below_limit_text() -> String {
    String::from(
        "179769313486231580793728971405303415079934132710037826936173778980444968292764750946649017977587207096330286416692887910946555547851940402630657488671505820681908902000708383676273854845817711531764475730270069855571366959622842914819860834936475292719074168444365510704342711559699508093042880177904174497791",
    )
}

#[test]
fn numbers_are_told_from_text() {
    for text in [
        "0", "1", "-1", "+1", "1.0", "1.", ".1", "-.5", "+.5e-3", "007", "1e5", "1E5", "1e+5",
        "1e-5", "1.e5", "12.34e56", "-0", "0e0", "0.0000", "3.00", "2.5E10", "1e308", "1e-400",
        "00000000000000000000000000000000000001", "0e999999999999999999999999999999999999999",
        "0.0e-99999999999999999",
    ] {
        assert!(reads_as_finite(text), "{}", text);
        assert!(is_number_text(text), "{}", text);
    }
}

#[test]
fn text_is_told_from_numbers() {
    for text in [
        "", " ", "a", "test", "+", "-", ".", "e", "e5", "1e", "1e+", "1e-", "+-1", "--1", "1..2",
        "1.2.3", "1e5.5", "1e5e5", " 1", "1 ", "1,5", "1_000", "0x10", "1f", "1d", "١", "１",
        "1\u{0}", "é", "1é", "½", "∞", "inf", "-inf", "+inf", "infinity", "Infinity", "INF",
        "nan", "NaN", "-nan", "1e309", "1e999", "-1e999", "1e99999999999999999999999999999999999",
        "2e308", "0.1e310",
    ] {
        assert!(!reads_as_finite(text), "{}", text);
        assert!(!is_number_text(text), "{}", text);
    }
}

#[test]
fn the_limit_is_no_number() {
    let limit = limit_text();
    let below = below_limit_text();

    assert!(!reads_as_finite(&limit));
    assert!(!is_number_text(&limit));
    assert!(reads_as_finite(&below));
    assert!(is_number_text(&below));
    assert_eq!(below.parse::<f64>().unwrap(), f64::MAX);
}

#[test]
fn the_limit_in_other_forms() {
    let limit = limit_text();
    let below = below_limit_text();
    let forms: Vec<(String, bool)> = vec![
        (format!("-{}", limit), false),
        (format!("-{}", below), true),
        (format!("000{}", limit), false),
        (format!("000{}", below), true),
        (format!("{}.0", limit), false),
        (format!("{}.0", below), true),
        (format!("{}.999999", below), true),
        (format!("{}000e-3", limit), false),
        (format!("{}999e-3", below), true),
        (format!("{}e0", limit), false),
        (format!("0.{}e309", limit), false),
        (format!("0.{}e309", below), true),
        (format!("0.{}e310", below), false),
        (format!("0.000{}e312", below), true),
        (format!("0.000{}e312", limit), false),
        (format!("{}.{}e308", &limit[..1], &limit[1..]), false),
        (format!("{}.{}e308", &below[..1], &below[1..]), true),
        (format!("{}e-1", limit), true),
        (format!("{}e1", below), false),
        (String::from("1.7976931348623157e308"), true),
        (String::from("1.7976931348623158e308"), true),
        (String::from("1.7976931348623159e308"), false),
        (String::from("17976931348623158e292"), true),
        (String::from("17976931348623159e292"), false),
        (String::from("1.797693134862315807937289714053e308"), true),
        (String::from("1.797693134862315807937289714054e308"), false),
        (String::from("179769313486231580793728971405303415079934132710037826936173778980444968292764750946649017977587207096330286416692887910946555547851940402630657488671505820681908902000708383676273854845817711531764475730270069855571366959622842914819860834936475292719074168444365510704342711559699508093042880177904174497792e-20"), true),
    ];
    for (text, expected) in forms {
        assert_eq!(reads_as_finite(&text), expected, "{}", text);
        assert_eq!(is_number_text(&text), expected, "{}", text);
    }
}

#[test]
fn long_literals() {
    let zeros = "0".repeat(5000);
    let nines = "9".repeat(400);
    let forms: Vec<(String, bool)> = vec![
        (format!("0.{}1", zeros), true),
        (format!("1{}", zeros), false),
        (format!("1{}e-5000", zeros), true),
        (format!("1{}e-4691", zeros), false),
        (format!("1{}e-4692", zeros), true),
        (format!("0.{}1e5309", zeros), true),
        (format!("0.{}1e5310", zeros), false),
        (format!("{}1", zeros), true),
        (format!("{}.{}", zeros, zeros), true),
        (format!("0.{}", nines), true),
        (format!("{}", nines), false),
        (format!("{}e-92", nines), true),
        (format!("{}e-91", nines), false),
    ];
    for (text, expected) in forms {
        assert_eq!(reads_as_finite(&text), expected, "{}", &text[..20.min(text.len())]);
        assert_eq!(is_number_text(&text), expected, "{}", &text[..20.min(text.len())]);
    }
}

#[test]
fn numeric_mark_agrees_with_reading() {
    let signs = ["", "+", "-"];
    let bodies = ["", "0", "12", ".", "1.", ".5", "3.25", "1.2.3", "a", "1a"];
    let exponents = ["", "e", "E", "e1", "E-2", "e+30", "e400", "e-400", "e1.5", "ee1"];
    for sign in signs {
        for body in bodies {
            for exponent in exponents {
                let text = format!("{}{}{}", sign, body, exponent);
                let value = DataValue::new(&text);
                assert_eq!(value.raw(), text);
                assert_eq!(value.is_value(), reads_as_finite(&text), "{}", text);
            }
        }
    }
}

/// The next number of a fixed sequence that looks random.
fn next(state: &mut u64) -> u64 {
    *state = state.wrapping_mul(6364136223846793005).wrapping_add(1442695040888963407);
    *state >> 33
}

#[test]
fn numeric_mark_agrees_on_generated_texts() {
    let alphabet: Vec<char> = "0123456789+-.eE0019 a".chars().collect();
    let mut state: u64 = 7;
    let mut numbers = 0;
    for _ in 0..300_000 {
        let length = next(&mut state) % 9;
        let mut text = String::new();
        for _ in 0..length {
            text.push(alphabet[(next(&mut state) % alphabet.len() as u64) as usize]);
        }
        let expected = reads_as_finite(&text);
        if expected {
            numbers += 1;
        }
        assert_eq!(is_number_text(&text), expected, "{:?}", text);
    }
    assert!(numbers > 1000);
}

#[test]
fn numeric_mark_agrees_near_the_limit() {
    let limit = limit_text();
    let mut state: u64 = 11;
    let mut finite = 0;
    let mut infinite = 0;
    for _ in 0..20_000 {
        let mut digits: Vec<u8> = limit.bytes().collect();
        let kept = (next(&mut state) % 330) as usize;
        if kept < digits.len() {
            let at = kept;
            digits[at] = b'0' + (next(&mut state) % 10) as u8;
            if next(&mut state) % 2 == 0 {
                digits.truncate(at + 1);
            }
        } else {
            for _ in digits.len()..kept {
                digits.push(b'0' + (next(&mut state) % 10) as u8);
            }
        }
        let zeros = (next(&mut state) % 4) as usize;
        let point = (next(&mut state) % (digits.len() as u64 + 1)) as usize;
        let mantissa = String::from_utf8(digits.clone()).unwrap();
        let shift = 309 - point as i64 + (next(&mut state) % 3) as i64 - 1;
        let text = format!(
            "{}{}.{}e{}",
            "0".repeat(zeros),
            &mantissa[..point],
            &mantissa[point..],
            shift
        );
        let expected = reads_as_finite(&text);
        if expected {
            finite += 1;
        } else {
            infinite += 1;
        }
        assert_eq!(is_number_text(&text), expected, "{}", text);
    }
    assert!(finite > 1000);
    assert!(infinite > 1000);
}

#[test]
fn space_is_white_space() {
    for code in 0..0x11_0000u32 {
        if let Some(c) = char::from_u32(code) {
            assert_eq!(space_char(c), c.is_whitespace(), "{:x}", code);
        }
    }
}

#[test]
fn trim_removes_space_at_both_ends() {
    for text in [
        "", " ", "   ", "a", " a", "a ", " a ", "  a b  ", "\t\r\n x \u{b}\u{c}", "\u{85}y\u{a0}",
        "\u{1680}\u{2000}\u{200a}z\u{2028}\u{2029}\u{202f}\u{205f}\u{3000}", "é", " é ",
        "\u{200b} ", "日本 語 ",
    ] {
        assert_eq!(trim(text), text.trim(), "{:?}", text);
        assert_eq!(trim(trim(text)), trim(text), "{:?}", text);
    }
}
