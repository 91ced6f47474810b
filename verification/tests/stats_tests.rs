use story_generator::codec::serialize_prompt;
use story_generator::prompt::Prompt;
use story_generator::stats::most_common;
use story_generator::stats::stats;
use story_generator::stats::NO_DATA_MAX;
use story_generator::stats::NO_DATA_MIN;

fn key_of(x: f64) -> u64 {
    let b = x.to_bits();
    if b >> 63 == 1 {
        !b
    } else {
        b | (1u64 << 63)
    }
}

fn prompt(number: f64, unit: &str, place: &str, adjective: &str, noun: &str) -> Prompt {
    Prompt {
        number_key: key_of(number),
        number_text: format!("{}", number),
        unit_of_measure: unit.to_string(),
        place: place.to_string(),
        adjective: adjective.to_string(),
        noun: noun.to_string(),
    }
}

fn store_of(ps: &[Prompt]) -> String {
    let mut out = String::new();
    for p in ps {
        out.push_str(&serialize_prompt(p));
        out.push('\n');
    }
    out
}

#[test]
fn empty_store_keeps_sentinels() {
    let st = stats("");
    assert_eq!(st.min_number, NO_DATA_MIN);
    assert_eq!(st.max_number, NO_DATA_MAX);
    assert_eq!(most_common(&st.unit_of_measure), None);
    assert_eq!(most_common(&st.place), None);
    assert_eq!(most_common(&st.adjective), None);
    assert_eq!(most_common(&st.noun), None);
}

#[test]
fn all_malformed_store_keeps_sentinels() {
    let st = stats("garbage\n123\n\nmore garbage\n");
    assert_eq!(st.min_number, NO_DATA_MIN);
    assert_eq!(st.max_number, NO_DATA_MAX);
    assert_eq!(most_common(&st.noun), None);
}

#[test]
fn aggregates_counts_and_extremes() {
    let ps = [
        prompt(3.0, "mile", "work", "shiny", "coin"),
        prompt(-1.5, "km", "school", "rusty", "key"),
        prompt(10.0, "mile", "work", "shiny", "ring"),
    ];
    let st = stats(&store_of(&ps));
    assert_eq!(st.min_number, key_of(-1.5));
    assert_eq!(st.max_number, key_of(10.0));
    let total = |m: &story_generator::stats::FreqMap| -> usize {
        m.entries.iter().map(|e| e.1).sum()
    };
    assert_eq!(total(&st.unit_of_measure), 3);
    assert_eq!(total(&st.place), 3);
    assert_eq!(total(&st.adjective), 3);
    assert_eq!(total(&st.noun), 3);
    assert_eq!(most_common(&st.unit_of_measure), Some(("mile".to_string(), 2)));
    assert_eq!(most_common(&st.adjective), Some(("shiny".to_string(), 2)));
}

#[test]
fn malformed_line_changes_nothing() {
    let ps = [
        prompt(3.0, "mile", "work", "shiny", "coin"),
        prompt(7.0, "km", "school", "rusty", "key"),
    ];
    let clean = store_of(&ps);
    let mut dirty = String::new();
    dirty.push_str(&serialize_prompt(&ps[0]));
    dirty.push('\n');
    dirty.push_str("this line is corrupt");
    dirty.push('\n');
    dirty.push_str(&serialize_prompt(&ps[1]));
    dirty.push('\n');
    let a = stats(&clean);
    let b = stats(&dirty);
    assert_eq!(a.min_number, b.min_number);
    assert_eq!(a.max_number, b.max_number);
    assert_eq!(a.unit_of_measure.entries, b.unit_of_measure.entries);
    assert_eq!(a.place.entries, b.place.entries);
    assert_eq!(a.adjective.entries, b.adjective.entries);
    assert_eq!(a.noun.entries, b.noun.entries);
}

#[test]
fn single_record_scenario() {
    let p = prompt(3.0, "mile", "work", "shiny", "coin");
    let st = stats(&store_of(&[p]));
    assert_eq!(st.min_number, key_of(3.0));
    assert_eq!(st.max_number, key_of(3.0));
    assert_eq!(most_common(&st.unit_of_measure), Some(("mile".to_string(), 1)));
    assert_eq!(most_common(&st.place), Some(("work".to_string(), 1)));
    assert_eq!(most_common(&st.adjective), Some(("shiny".to_string(), 1)));
    assert_eq!(most_common(&st.noun), Some(("coin".to_string(), 1)));
}

#[test]
fn shared_place_wins() {
    let ps = [
        prompt(1.0, "mile", "work", "shiny", "coin"),
        prompt(2.0, "km", "park", "rusty", "key"),
        prompt(3.0, "yard", "work", "dull", "ring"),
    ];
    let st = stats(&store_of(&ps));
    assert_eq!(most_common(&st.place), Some(("work".to_string(), 2)));
}

#[test]
fn tie_breaks_to_first_observed() {
    let ps = [
        prompt(1.0, "mile", "work", "shiny", "coin"),
        prompt(2.0, "km", "park", "rusty", "key"),
    ];
    let st = stats(&store_of(&ps));
    assert_eq!(most_common(&st.place), Some(("work".to_string(), 1)));
}

#[test]
fn last_line_without_break_still_counts() {
    let p = prompt(4.0, "mile", "work", "shiny", "coin");
    let line = serialize_prompt(&p);
    let st = stats(&line);
    assert_eq!(st.min_number, key_of(4.0));
    assert_eq!(most_common(&st.noun), Some(("coin".to_string(), 1)));
}
