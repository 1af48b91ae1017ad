use std::collections::HashMap;

use sprintf::error::Error;
use sprintf::extractor::{extract_float_format, extract_number_format};
use sprintf::parser::{explode, parse_format_string, Entry, ParsedFormatString, Placeholder};
use sprintf::printer::{print_hex, print_number, print_value, render, sprintf, FillStyle};
use sprintf::types::{FloatFormat, HexFormat, NumberFormat};
use sprintf::value::{Decimal, Resolver, Value};

struct MapResolver(HashMap<String, Value>);

impl Resolver for MapResolver {
    fn resolve(&self, name: &str) -> Option<Value> {
        self.0.get(name).cloned()
    }
}

fn num(text: &str) -> Value {
    Value::Numeric(Decimal::parse(text).unwrap())
}

fn chars(s: &str) -> Vec<char> {
    s.chars().collect()
}

fn nf(digits: Option<u16>, fill_zeros: bool) -> NumberFormat {
    NumberFormat { digits, fill_zeros }
}

#[test]
fn placeholder_specifiers() {
    assert_eq!(Placeholder::parse(&chars("%2d")), Ok(Placeholder::Number(nf(Some(2), false))));
    assert_eq!(Placeholder::parse(&chars("%04d")), Ok(Placeholder::Number(nf(Some(4), true))));
    assert_eq!(
        Placeholder::parse(&chars("%08x")),
        Ok(Placeholder::Hex(HexFormat { uppercase: false, nf: nf(Some(8), true) }))
    );
    assert_eq!(
        Placeholder::parse(&chars("%2X")),
        Ok(Placeholder::Hex(HexFormat { uppercase: true, nf: nf(Some(2), false) }))
    );
    assert_eq!(Placeholder::parse(&chars("%v")), Ok(Placeholder::Display));
    assert_eq!(Placeholder::parse(&chars("%s")), Ok(Placeholder::String));
    assert_eq!(
        Placeholder::parse(&chars("%.02f")),
        Ok(Placeholder::Float(FloatFormat { fraction: nf(Some(2), true), ..Default::default() }))
    );
    assert_eq!(Placeholder::parse(&chars("%5q")), Err(Error::UnknownPlaceholderType('q')));
}

#[test]
fn number_format_extraction() {
    assert_eq!(extract_number_format(&chars("")), NumberFormat::default());
    assert_eq!(extract_number_format(&chars("04")), nf(Some(4), true));
    assert_eq!(extract_number_format(&chars("12")), nf(Some(12), false));
    assert_eq!(extract_number_format(&chars("+7")), nf(Some(7), false));
    assert_eq!(extract_number_format(&chars("65535")), nf(Some(65535), false));
    assert_eq!(extract_number_format(&chars("65536")), nf(None, false));
    assert_eq!(extract_number_format(&chars("0a")), nf(None, true));
}

#[test]
fn float_format_extraction() {
    assert_eq!(extract_float_format(&chars("")), FloatFormat::default());
    assert_eq!(
        extract_float_format(&chars("3")),
        FloatFormat { base: nf(Some(3), false), fraction: NumberFormat::default() }
    );
    assert_eq!(
        extract_float_format(&chars("05.2")),
        FloatFormat { base: nf(Some(5), true), fraction: nf(Some(2), false) }
    );
    // only the first dot splits; the rest stays with the fraction's body
    assert_eq!(
        extract_float_format(&chars(".2.5")),
        FloatFormat { base: NumberFormat::default(), fraction: nf(None, false) }
    );
}

#[test]
fn explode_splits_template() {
    let x = explode("%x this is a test %d hello %.2fh with 42%% foo").unwrap();
    assert_eq!(x.len(), 7);
    assert!(matches!(x[0], Entry::Placeholder(_)));
    assert_eq!(x[1], Entry::Text(" this is a test ".to_string()));
    assert!(matches!(x[2], Entry::Placeholder(_)));
    assert_eq!(x[3], Entry::Text(" hello ".to_string()));
    assert!(matches!(x[4], Entry::Placeholder(_)));
    assert_eq!(x[5], Entry::Text("h with 42".to_string()));
    assert_eq!(x[6], Entry::Text("% foo".to_string()));
}

#[test]
fn explode_failures() {
    assert_eq!(explode("a %5q b"), Err(Error::UnknownPlaceholderType('q')));
    assert_eq!(explode("ends with %"), Err(Error::IncompletePlaceholder));
    assert_eq!(explode("ends with %5"), Err(Error::UnknownPlaceholderType('5')));
    assert_eq!(explode(""), Ok(vec![]));
}

#[test]
fn number_padding() {
    let p = |digits, fill| Placeholder::Number(nf(Some(digits), fill));
    assert_eq!(print_value(&p(3, false), &num("123")).unwrap(), "123");
    assert_eq!(print_value(&p(3, false), &num("-123")).unwrap(), "-123");
    assert_eq!(print_value(&p(3, true), &num("123")).unwrap(), "123");
    assert_eq!(print_value(&p(5, true), &num("123")).unwrap(), "00123");
    assert_eq!(print_value(&p(3, true), &num("-123")).unwrap(), "-123");
    assert_eq!(print_value(&p(6, true), &num("-123")).unwrap(), "00-123");
    assert_eq!(print_value(&p(5, true), &num("123.9")).unwrap(), "00123");
    assert_eq!(print_value(&p(5, true), &num("-123.9")).unwrap(), "0-123");
}

#[test]
fn hex_case() {
    let h = |uppercase| Placeholder::Hex(HexFormat { uppercase, nf: nf(Some(2), false) });
    assert_eq!(print_value(&h(true), &num("255")).unwrap(), "FF");
    assert_eq!(print_value(&h(false), &num("255")).unwrap(), "ff");
    assert_eq!(print_hex(&HexFormat { uppercase: false, nf: nf(Some(4), true) }, 10), "000a");
    assert_eq!(print_hex(&HexFormat::default(), -1), "f".repeat(32));
}

#[test]
fn print_number_fill_styles() {
    assert_eq!(print_number(&nf(Some(4), true), 12, FillStyle::Prepend), "0012");
    assert_eq!(print_number(&nf(Some(4), true), 12, FillStyle::Append), "1200");
    assert_eq!(print_number(&nf(Some(4), false), 12, FillStyle::Append), "12");
    assert_eq!(print_number(&nf(None, true), 12, FillStyle::Prepend), "12");
    assert_eq!(print_number(&NumberFormat::default(), i128::MIN, FillStyle::Prepend), i128::MIN.to_string());
}

#[test]
fn float_rounding() {
    let f = Placeholder::Float(FloatFormat::default());
    assert_eq!(print_value(&f, &num("42.123")).unwrap(), "42.12");
    assert_eq!(print_value(&f, &num("42.125")).unwrap(), "42.13");
    let one = Placeholder::Float(FloatFormat { fraction: nf(Some(1), false), ..Default::default() });
    assert_eq!(print_value(&one, &num("42.123")).unwrap(), "42.1");
    assert_eq!(print_value(&f, &num("42")).unwrap(), "42.0");
    assert_eq!(print_value(&f, &num("-1.5")).unwrap(), "-1.-50");
}

#[test]
fn fractional_padding_appends() {
    let four = Placeholder::Float(FloatFormat { fraction: nf(Some(4), true), ..Default::default() });
    assert_eq!(print_value(&four, &num("42.12")).unwrap(), "42.1200");
    let five = Placeholder::Float(FloatFormat { base: NumberFormat::default(), fraction: nf(Some(5), true) });
    assert_eq!(print_value(&five, &num("42.1")).unwrap(), "42.10000");
}

#[test]
fn precision_out_of_range() {
    let wide = Placeholder::Float(FloatFormat { fraction: nf(Some(39), false), ..Default::default() });
    assert_eq!(print_value(&wide, &num("1.5")), Err(Error::PrecisionOutOfRange(39)));
}

#[test]
fn display_renders_natural_text() {
    assert_eq!(print_value(&Placeholder::Display, &num("1.4711")).unwrap(), "1.4711");
    assert_eq!(print_value(&Placeholder::Display, &num("-0.05")).unwrap(), "-0.05");
    assert_eq!(print_value(&Placeholder::Display, &Value::String("x".into())).unwrap(), "x");
    assert_eq!(print_value(&Placeholder::Display, &Value::Other("true".into())).unwrap(), "true");
}

#[test]
fn type_mismatch() {
    assert_eq!(print_value(&Placeholder::String, &num("42")), Err(Error::TypeMismatch));
    assert_eq!(
        print_value(&Placeholder::Number(NumberFormat::default()), &Value::String("a".into())),
        Err(Error::TypeMismatch)
    );
    assert_eq!(
        print_value(&Placeholder::Float(FloatFormat::default()), &Value::Other("true".into())),
        Err(Error::TypeMismatch)
    );
}

fn resolver() -> MapResolver {
    let mut values = HashMap::new();
    values.insert("user.name".to_string(), Value::String("FooUser".into()));
    values.insert("user.tries".to_string(), num("42"));
    values.insert("test.seconds".to_string(), num("1.4711"));
    values.insert("test.code".to_string(), num("8"));
    MapResolver(values)
}

#[test]
fn end_to_end() {
    let parsed = parse_format_string(
        r#""Hello %s, %04d tries, %.2fs, 0x%02X", user.name, user.tries, test.seconds, test.code"#,
    )
    .unwrap();
    assert_eq!(parsed.variables, vec!["user.name", "user.tries", "test.seconds", "test.code"]);
    assert_eq!(sprintf(&parsed, &resolver()).unwrap(), "Hello FooUser, 0042 tries, 1.47s, 0x08");
}

#[test]
fn arity() {
    assert!(parse_format_string(r#""%d and %d", a, b"#).is_ok());
    assert_eq!(
        parse_format_string(r#""%d and %d", a"#).unwrap_err(),
        Error::PlaceholderArityMismatch { variables: 1, placeholders: 2 }
    );
    assert_eq!(
        parse_format_string(r#""%d", a, b, c"#).unwrap_err(),
        Error::PlaceholderArityMismatch { variables: 3, placeholders: 1 }
    );
    let none = parse_format_string(r#""no placeholders""#).unwrap();
    assert!(none.variables.is_empty());
}

#[test]
fn malformed_templates() {
    assert!(matches!(parse_format_string("no quotes"), Err(Error::MalformedTemplate)));
    assert!(matches!(parse_format_string(r#""unterminated %d, a"#), Err(Error::MalformedTemplate)));
    assert!(matches!(parse_format_string(r#""%q", a"#), Err(Error::UnknownPlaceholderType('q'))));
}

#[test]
fn variable_names_are_trimmed() {
    let parsed = parse_format_string("\"%v %v\",   first ,\tsecond  ").unwrap();
    assert_eq!(parsed.variables, vec!["first", "second"]);
}

#[test]
fn escaped_percent_consumes_no_variable() {
    let parsed = parse_format_string(r#""%d%% of %d%%", a, b"#).unwrap();
    let mut values = HashMap::new();
    values.insert("a".to_string(), num("50"));
    values.insert("b".to_string(), num("7"));
    assert_eq!(sprintf(&parsed, &MapResolver(values)).unwrap(), "50% of 7%");
    let text_only = parse_format_string(r#""100%%""#).unwrap();
    assert_eq!(text_only.entries, vec![Entry::Text("100".into()), Entry::Text("%".into())]);
}

#[test]
fn unresolved_variable() {
    let parsed = parse_format_string(r#""%s and %s", user.name, user.unknown"#).unwrap();
    assert_eq!(sprintf(&parsed, &resolver()), Err(Error::UnresolvedVariable("user.unknown".into())));
    let mismatch = parse_format_string(r#""%s", user.tries"#).unwrap();
    assert_eq!(sprintf(&mismatch, &resolver()), Err(Error::TypeMismatch));
}

#[test]
fn missing_variable_binding() {
    let parsed = ParsedFormatString::new(vec![Entry::Placeholder(Placeholder::Display)], vec![]);
    assert_eq!(render(&parsed, &vec![]), Err(Error::MissingVariableBinding));
}

#[test]
fn decimal_text_round_trip() {
    assert_eq!(Decimal::parse("42.125"), Some(Decimal::new(42125, 3)));
    assert_eq!(Decimal::parse("-0.5"), Some(Decimal::new(-5, 1)));
    assert_eq!(Decimal::parse("7"), Some(Decimal::new(7, 0)));
    assert_eq!(Decimal::parse("1."), None);
    assert_eq!(Decimal::parse(".5"), None);
    assert_eq!(Decimal::parse("NaN"), None);
    assert_eq!(Decimal::parse("inf"), None);
    assert_eq!(Decimal::parse("170141183460469231731687303715884105728"), None);
    assert_eq!(Decimal::new(42125, 3).to_text(), "42.125");
    assert_eq!(Decimal::new(-5, 2).to_text(), "-0.05");
}

#[test]
fn specifier_without_percent() {
    assert_eq!(Placeholder::parse(&chars("x5d")), Err(Error::NotAPlaceholder));
}

#[test]
fn display_drops_trailing_fraction_zeros() {
    assert_eq!(print_value(&Placeholder::Display, &Value::Numeric(Decimal::new(4200, 2))).unwrap(), "42");
    assert_eq!(print_value(&Placeholder::Display, &Value::Numeric(Decimal::new(4250, 2))).unwrap(), "42.5");
    assert_eq!(Decimal::new(7, 0).to_text(), "7");
}

#[test]
fn malformed_number() {
    let bad = Value::Numeric(Decimal::new(1, 39));
    assert_eq!(print_value(&Placeholder::Display, &bad), Err(Error::MalformedNumber));
    assert_eq!(print_value(&Placeholder::Number(NumberFormat::default()), &Value::Numeric(Decimal::new(i128::MIN, 0))), Err(Error::MalformedNumber));
    let parsed = parse_format_string(r#""%d", x"#).unwrap();
    let mut values = HashMap::new();
    values.insert("x".to_string(), bad);
    assert_eq!(sprintf(&parsed, &MapResolver(values)), Err(Error::MalformedNumber));
}
