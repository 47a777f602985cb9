use lwobj::text::{chars_of, is_space_char, split_at_char, string_of, tokenize};
use lwobj::index::{parse_count, parse_index, push_decimal};
use lwobj::number::is_number_text;
use lwobj::Number;

fn chars(s: &str) -> Vec<char> {
    s.chars().collect()
}

fn strings(v: Vec<&[char]>) -> Vec<String> {
    v.into_iter().map(|w| w.iter().collect::<String>()).collect()
}

#[test]
fn space_is_what_the_standard_library_calls_whitespace() {
    let mut c = 0u32;
    while c <= 0x10FFFF {
        if let Some(ch) = char::from_u32(c) {
            assert_eq!(is_space_char(ch), ch.is_whitespace(), "code point {:x}", c);
        }
        c += 1;
    }
}

#[test]
fn tokenize_agrees_with_split_whitespace() {
    let samples = [
        "",
        " ",
        "v 1 2 3",
        "  v   1\t2 \u{a0}3\r\n",
        "f 1/2/3 4//5 6",
        "\u{3000}o\u{2003}a b  c ",
        "#comment",
        "x",
        " x",
        "x ",
    ];
    for s in samples.iter() {
        let cs = chars(s);
        let expected: Vec<String> = s.split_whitespace().map(|w| w.to_string()).collect();
        assert_eq!(strings(tokenize(&cs)), expected, "text {:?}", s);
    }
}

#[test]
fn split_agrees_with_the_standard_library() {
    let samples = ["", "/", "1", "1/2", "1//3", "1/2/3", "1/2/3/4", "//", "a/", "/a", "4///"];
    for s in samples.iter() {
        let cs = chars(s);
        let expected: Vec<String> = s.split('/').map(|w| w.to_string()).collect();
        assert_eq!(strings(split_at_char(&cs, '/')), expected, "text {:?}", s);
    }
}

#[test]
fn split_yields_one_empty_field_for_an_empty_text() {
    let cs = chars("");
    let fields = split_at_char(&cs, '\n');
    assert_eq!(fields.len(), 1);
    assert!(fields[0].is_empty());
}

#[test]
fn chars_and_strings_convert_both_ways() {
    let s = "v 1 -1 3. \u{e9}\u{3000}\u{1F600}";
    let cs = chars_of(s);
    assert_eq!(cs, chars(s));
    assert_eq!(string_of(&cs), s);
    assert_eq!(string_of(&[]), "");
}

#[test]
fn number_grammar_agrees_with_float_parsing() {
    let samples = [
        "", "+", "-", ".", "+.", "-.", "e", "e5", ".e5", "1", "-1", "+1", "1.", ".5", "-.5", "1.5",
        "1.000000", "-2.00", "3.", "1e5", "1E5", "1e+5", "1e-5", "1.e5", ".5e5", "1.5e", "1.5e+",
        "1e5.", "1e5e5", "1.5.2", "-1d", "8.5", "inf", "INF", "Inf", "-inf", "+inf", "infinity",
        "Infinity", "-INFINITY", "infinit", "infinityy", "nan", "NaN", "-nan", "+NAN", "na", "nane",
        "1inf", "inf1", "0x10", "1_000", "1 ", " 1", "1f32", "--1", "+-1", "1,5", "\u{661}",
        "00012", "0.0000001", "340282350000000000000000000000000000000", "1e400", "1e-400",
        "١", "1/2", "i", "in", "nfi",
    ];
    for s in samples.iter() {
        let cs = chars(s);
        assert_eq!(is_number_text(&cs), s.parse::<f32>().is_ok(), "text {:?}", s);
        assert_eq!(Number::parse(s).is_some(), s.parse::<f32>().is_ok(), "text {:?}", s);
    }
}

#[test]
fn every_printed_float_is_a_number() {
    let samples = [
        0.0f32, -0.0, 1.0, -2.0, -3.5, 0.5, 1e-7, 1e30, 3.4028235e38, 1.17549435e-38, 1e-45,
        f32::INFINITY, f32::NEG_INFINITY, f32::NAN, 0.1, 123456.79,
    ];
    for x in samples.iter() {
        let text = format!("{}", x);
        let n = Number::parse(&text);
        assert!(n.is_some(), "text {:?}", text);
        assert_eq!(n.unwrap().as_str(), text);
    }
}

#[test]
fn number_keeps_its_text() {
    let n = Number::parse("-1.000000").unwrap();
    assert_eq!(n.as_str(), "-1.000000");
    assert_eq!(n.clone(), n);
    assert_eq!(Number::one().as_str(), "1");
    assert_eq!(Number::zero().as_str(), "0");
    assert!(Number::parse("-1d").is_none());
    assert!(Number::from_chars(&chars("2.5")).is_some());
    assert!(Number::from_chars(&chars("2,5")).is_none());
}

#[test]
fn count_agrees_with_integer_parsing() {
    let max = usize::MAX.to_string();
    let over = format!("{}0", max);
    let mut next = max.clone().into_bytes();
    let last = next.len() - 1;
    next[last] += 1;
    let next = String::from_utf8(next).unwrap();
    let samples = [
        "", "+", "-", "0", "1", "+1", "-1", "007", "+007", "12", "1 ", " 1", "1.0", "8.5", "1e3",
        "++1", "+-1", "a", "1a", "٣", "00000000000000000000000000000000000000001",
        max.as_str(), over.as_str(), next.as_str(),
    ];
    for s in samples.iter() {
        let cs = chars(s);
        assert_eq!(parse_count(&cs), s.parse::<usize>().ok(), "text {:?}", s);
    }
}

#[test]
fn index_is_one_less_than_the_count() {
    assert_eq!(parse_index(&chars("1")), Some(0));
    assert_eq!(parse_index(&chars("2")), Some(1));
    assert_eq!(parse_index(&chars("+10")), Some(9));
    assert_eq!(parse_index(&chars(&usize::MAX.to_string())), Some(usize::MAX - 1));
    assert_eq!(parse_index(&chars("0")), None);
    assert_eq!(parse_index(&chars("")), None);
    assert_eq!(parse_index(&chars("x")), None);
}

#[test]
fn decimal_is_written_without_leading_zeros() {
    let max = usize::MAX as u128;
    let values = [0u128, 1, 9, 10, 11, 99, 100, 101, 12345, max, max + 1];
    for v in values.iter() {
        let mut out = String::from("f ");
        push_decimal(&mut out, *v);
        assert_eq!(out, format!("f {}", v));
    }
}
