use story_generator::codec::parse_prompt;
use story_generator::codec::serialize_prompt;
use story_generator::prompt::Prompt;

fn key_of(x: f64) -> u64 {
    let b = x.to_bits();
    if b >> 63 == 1 {
        !b
    } else {
        b | (1u64 << 63)
    }
}

fn prompt(number: f64, unit: &str, place: &str, adjective: &str, noun: &str) -> Prompt {
    Prompt {
        number_key: key_of(number),
        number_text: format!("{}", number),
        unit_of_measure: unit.to_string(),
        place: place.to_string(),
        adjective: adjective.to_string(),
        noun: noun.to_string(),
    }
}

#[test]
fn round_trip_plain() {
    let p = prompt(3.0, "mile", "work", "shiny", "coin");
    let line = serialize_prompt(&p);
    assert_eq!(parse_prompt(&line), Some(p));
}

#[test]
fn round_trip_unicode() {
    let p = prompt(
        -0.25,
        "\u{00e9}l\u{00e9}phant",
        "\u{5e9}\u{5dc}\u{5d5}\u{5dd}",
        "sch\u{00f6}n",
        "\u{1f600} emoji",
    );
    let line = serialize_prompt(&p);
    assert_eq!(parse_prompt(&line), Some(p));
}

#[test]
fn round_trip_extreme_numbers() {
    for x in [0.0, -0.0, 1.5e300, -7.25e-12, f64::MAX, f64::MIN] {
        let p = prompt(x, "unit", "place", "adj", "noun");
        let line = serialize_prompt(&p);
        assert_eq!(parse_prompt(&line), Some(p));
    }
}

#[test]
fn serialized_line_is_digits_only() {
    let p = prompt(12.75, "mile", "work", "shiny", "coin");
    let line = serialize_prompt(&p);
    assert!(line.chars().all(|c| c.is_ascii_digit()));
    assert!(!line.contains('\n'));
}

#[test]
fn parse_rejects_garbage() {
    assert_eq!(parse_prompt(""), None);
    assert_eq!(parse_prompt("not a record"), None);
    assert_eq!(parse_prompt("123"), None);
}

#[test]
fn parse_rejects_truncated_line() {
    let p = prompt(3.0, "mile", "work", "shiny", "coin");
    let line = serialize_prompt(&p);
    let cut: String = line.chars().take(line.chars().count() - 1).collect();
    assert_eq!(parse_prompt(&cut), None);
}

#[test]
fn parse_rejects_trailing_digits() {
    let p = prompt(3.0, "mile", "work", "shiny", "coin");
    let mut line = serialize_prompt(&p);
    line.push('7');
    assert_eq!(parse_prompt(&line), None);
}
