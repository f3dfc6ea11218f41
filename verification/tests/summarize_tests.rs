use pdf_summarizer::summarize::{
    advanced_summarize, default_min_word_length, default_summary_length, SummaryOptions,
};

fn opts(length: usize, min_word_length: usize, exclude_common: bool) -> SummaryOptions {
    SummaryOptions { length, min_word_length, exclude_common }
}

#[test]
fn defaults_are_twenty_and_four() {
    assert_eq!(default_summary_length(), 20);
    assert_eq!(default_min_word_length(), 4);
    let d = SummaryOptions::api_defaults();
    assert_eq!(d.length, 20);
    assert_eq!(d.min_word_length, 4);
    assert!(!d.exclude_common);
    let i = SummaryOptions::ingest_defaults();
    assert!(i.exclude_common);
}

#[test]
fn ranks_by_count_then_lexicographic() {
    let text = "the cat sat on the mat the cat ran";
    let summary = advanced_summarize(text, &opts(2, 3, true));
    assert_eq!(summary, "cat (2), mat (1)");
}

#[test]
fn sentinel_for_stopword_only_text() {
    let text = "the and with from this that";
    let summary = advanced_summarize(text, &opts(5, 2, true));
    assert_eq!(summary, "No significant content found");
}

#[test]
fn sentinel_for_empty_text() {
    let summary = advanced_summarize("", &opts(20, 4, false));
    assert_eq!(summary, "No significant content found");
}

#[test]
fn zero_length_with_survivors_renders_nothing() {
    let summary = advanced_summarize("plenty of meaningful words here", &opts(0, 4, false));
    assert_eq!(summary, "");
}

#[test]
fn at_most_length_entries() {
    let text = "alpha beta gamma delta epsilon zeta alpha beta gamma";
    let summary = advanced_summarize(text, &opts(3, 4, false));
    let entries: Vec<&str> = summary.split(", ").collect();
    assert_eq!(entries.len(), 3);
    assert_eq!(summary, "alpha (2), beta (2), gamma (2)");
}

#[test]
fn deterministic_on_identical_input() {
    let text = "roses are red violets are blue sugar is sweet and so are you";
    let o = opts(10, 3, true);
    let first = advanced_summarize(text, &o);
    let second = advanced_summarize(text, &o);
    assert_eq!(first, second);
}

#[test]
fn lowercases_and_trims_punctuation() {
    let text = "Hello, world! HELLO... (world) hello";
    let summary = advanced_summarize(text, &opts(20, 4, false));
    assert_eq!(summary, "hello (3), world (2)");
}

#[test]
fn min_word_length_filters_short_tokens() {
    let text = "go go go running running jumped";
    let summary = advanced_summarize(text, &opts(20, 4, false));
    assert_eq!(summary, "running (2), jumped (1)");
}

#[test]
fn stopwords_kept_when_filter_off() {
    let text = "the the the word";
    let summary = advanced_summarize(text, &opts(20, 3, false));
    assert_eq!(summary, "the (3), word (1)");
}

#[test]
fn lexicographic_tie_break_is_stable() {
    let summary = advanced_summarize("zzzz aaaa mmmm", &opts(20, 4, false));
    assert_eq!(summary, "aaaa (1), mmmm (1), zzzz (1)");
}
