use story_generator::generate::generate;
use story_generator::prompt::FieldName;
use story_generator::prompt::Prompt;

fn key_of(x: f64) -> u64 {
    let b = x.to_bits();
    if b >> 63 == 1 {
        !b
    } else {
        b | (1u64 << 63)
    }
}

fn prompt(number: f64, unit: &str, place: &str, adjective: &str, noun: &str) -> Prompt {
    Prompt {
        number_key: key_of(number),
        number_text: format!("{}", number),
        unit_of_measure: unit.to_string(),
        place: place.to_string(),
        adjective: adjective.to_string(),
        noun: noun.to_string(),
    }
}

#[test]
fn validation_accepts_lengths_in_range() {
    let p = prompt(3.0, "mile", "work", "shiny", "coin");
    assert!(p.validate().is_ok());
    let one = "x";
    let fifty: String = std::iter::repeat('y').take(50).collect();
    let q = prompt(-1.5, one, &fifty, one, &fifty);
    assert!(q.validate().is_ok());
}

#[test]
fn validation_rejects_empty_field() {
    let p = prompt(3.0, "", "work", "shiny", "coin");
    let e = p.validate().unwrap_err();
    assert_eq!(e.fields, vec![FieldName::UnitOfMeasure]);
}

#[test]
fn validation_rejects_over_fifty() {
    let long: String = std::iter::repeat('z').take(51).collect();
    let p = prompt(3.0, "mile", &long, "shiny", "coin");
    let e = p.validate().unwrap_err();
    assert_eq!(e.fields, vec![FieldName::Place]);
}

#[test]
fn validation_reports_all_violating_fields() {
    let long: String = std::iter::repeat('z').take(51).collect();
    let p = prompt(0.0, "", "work", &long, "");
    let e = p.validate().unwrap_err();
    assert_eq!(
        e.fields,
        vec![FieldName::UnitOfMeasure, FieldName::Adjective, FieldName::Noun]
    );
}

#[test]
fn validation_counts_characters_not_bytes() {
    let fifty_wide: String = std::iter::repeat('\u{00e9}').take(50).collect();
    let p = prompt(1.0, &fifty_wide, "work", "shiny", "coin");
    assert!(p.validate().is_ok());
}

#[test]
fn render_fills_template() {
    let p = prompt(3.0, "mile", "work", "shiny", "coin");
    assert_eq!(
        p.render(),
        "One day Anna was walking her 3 mile commute to work and found a shiny coin on the ground."
    );
}

#[test]
fn render_keeps_fractional_number_text() {
    let p = prompt(-2.5, "km", "school", "rusty", "key");
    assert_eq!(
        p.render(),
        "One day Anna was walking her -2.5 km commute to school and found a rusty key on the ground."
    );
}

#[test]
fn generate_returns_story_and_line() {
    let p = prompt(3.0, "mile", "work", "shiny", "coin");
    let (story, line) = generate(&p).unwrap();
    assert_eq!(
        story,
        "One day Anna was walking her 3 mile commute to work and found a shiny coin on the ground."
    );
    assert_eq!(
        story_generator::codec::parse_prompt(&line),
        Some(p)
    );
}

#[test]
fn generate_rejects_invalid_prompt() {
    let p = prompt(3.0, "mile", "", "shiny", "coin");
    let e = generate(&p).unwrap_err();
    assert_eq!(e.fields, vec![FieldName::Place]);
}
