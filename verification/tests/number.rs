use kitti_boxes::number::{denotes_real, parse_integer, parse_numbers, Number};
use kitti_boxes::text::{chars_of, split_words};

const WORDS: [&str; 78] = [
    "0", "1", "-1", "+1", "007", "1.5", "-1.5", "+1.5", "1.", ".5", "-.5", "+.5", "-1.", "0.0",
    "1e5", "1E5", "1e+5", "1e-5", "1.e5", ".5e5", "1.5E-05", "-1.58", "587.01", "7.215377e+02",
    "inf", "Inf", "INF", "-inf", "+inf", "infinity", "Infinity", "INFINITY", "-iNfInItY", "nan",
    "NaN", "NAN", "-nan", "+NaN", "1e400", "1e-400", "123456789012345678901234567890",
    "0.000000000000000000000000000000000000000000000001",
    "", "+", "-", ".", "+.", "-.", "e5", ".e5", "1e", "1e+", "1e-", "1e5.5", "1.5.5", "1..5",
    "--1", "+-1", "1-", "1+1", "0x10", "1_000", "1,5", "1f", "1.0f32", "in", "infi", "infinit",
    "infinityy", "na", "nann", "n", "i", "１", "١", "1 ", " 1", "1\u{0}",
];

#[test]
fn a_word_is_a_number_exactly_when_it_converts_to_single_precision() {
    for word in WORDS {
        let expected = word.parse::<f32>().is_ok();
        assert_eq!(denotes_real(&chars_of(word)), expected, "{:?}", word);
        assert_eq!(Number::parse(&chars_of(word)).is_some(), expected, "{:?}", word);
    }
}

#[test]
fn a_word_is_a_number_exactly_when_it_converts_to_double_precision() {
    for word in WORDS {
        assert_eq!(denotes_real(&chars_of(word)), word.parse::<f64>().is_ok(), "{:?}", word);
    }
}

#[test]
fn a_number_keeps_its_word() {
    for word in ["0.00", "-1.58", "7.215377e+02", "+.5", "NaN", "-Infinity"] {
        assert_eq!(Number::parse(&chars_of(word)).unwrap().as_str(), word);
    }
}

#[test]
fn a_word_that_is_no_number_gives_none() {
    assert_eq!(Number::parse(&chars_of("1.6x")), None);
    assert_eq!(Number::parse(&chars_of("")), None);
    assert_eq!(Number::parse(&chars_of("Car")), None);
}

#[test]
fn one_is_written_with_one_decimal() {
    assert_eq!(Number::one().as_str(), "1.0");
    assert_eq!(Number::one(), Number::parse(&chars_of("1.0")).unwrap());
}

#[test]
fn a_copy_of_a_number_is_the_number() {
    let n = Number::parse(&chars_of("46.70")).unwrap();
    assert_eq!(n.clone(), n);
    assert_eq!(n.clone().as_str(), "46.70");
}

#[test]
fn an_integer_is_what_the_standard_library_reads_as_one() {
    let words = [
        "0", "1", "-1", "+1", "3", "007", "-0", "+0", "32767", "32768", "-32768", "-32769",
        "+32767", "+32768", "99999", "-99999", "000000000000000000000032767",
        "123456789012345678901234567890", "-123456789012345678901234567890", "", "+", "-",
        "1.0", "0.5", "1e3", "0x1", "1_0", " 1", "1 ", "--1", "+-1", "1-", "a", "１", "inf",
    ];
    for word in words {
        assert_eq!(parse_integer(&chars_of(word)), word.parse::<i16>().ok(), "{:?}", word);
    }
}

#[test]
fn a_word_for_an_integer_is_a_word_for_a_number() {
    for word in ["0", "-1", "+1", "007", "32767", "-32768", "+0"] {
        assert!(parse_integer(&chars_of(word)).is_some());
        assert!(denotes_real(&chars_of(word)));
    }
}

#[test]
fn integers_at_the_bounds_are_exact() {
    assert_eq!(parse_integer(&chars_of("32767")), Some(32767));
    assert_eq!(parse_integer(&chars_of("-32768")), Some(-32768));
    assert_eq!(parse_integer(&chars_of("32768")), None);
    assert_eq!(parse_integer(&chars_of("-32769")), None);
    assert_eq!(parse_integer(&chars_of("2")), Some(2));
}

#[test]
fn the_numbers_of_a_stretch_of_words_come_in_order() {
    let line = chars_of("key 1 2.5 -3e1 tail");
    let spans = split_words(&line);
    let numbers = parse_numbers(&line, &spans, 1, 4).unwrap();
    let words: Vec<&str> = numbers.iter().map(|n| n.as_str()).collect();
    assert_eq!(words, vec!["1", "2.5", "-3e1"]);
    assert_eq!(parse_numbers(&line, &spans, 2, 2), Some(vec![]));
    assert_eq!(parse_numbers(&line, &spans, 1, 5), None);
    assert_eq!(parse_numbers(&line, &spans, 0, 1), None);
}
