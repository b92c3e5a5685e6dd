use shadow::number_formatter::{FloatFormatter, NumberFormatter, PercentFormatter};
use shadow::progress_counter::ProgressCounter;
use shadow::text::{NGram, NGramType, StrCursor, Tokenizer};

#[test]
fn progress_counter_counts_for_all_its_clones() {
    let counter = ProgressCounter::new(10);
    assert_eq!(counter.total(), 10);
    assert_eq!(counter.get(), 0);
    let clone = counter.clone();
    counter.inc(3);
    clone.inc(1);
    assert_eq!(counter.get(), 4);
    assert_eq!(clone.get(), 4);
    clone.set(9);
    assert_eq!(counter.get(), 9);
    assert_eq!(clone.total(), 10);
}

#[test]
fn number_formatters_keep_their_settings() {
    assert_eq!(FloatFormatter::new(3).digits, 3);
    assert_eq!(FloatFormatter::default().digits, 6);
    assert_eq!(PercentFormatter::new(4).decimal_places, 4);
    assert_eq!(PercentFormatter::default().decimal_places, 2);
    assert_eq!(NumberFormatter::float(3), NumberFormatter::Float(FloatFormatter::new(3)));
    assert_eq!(NumberFormatter::float_default(), NumberFormatter::Float(FloatFormatter::new(6)));
    assert_eq!(NumberFormatter::default(), NumberFormatter::float_default());
    assert_eq!(NumberFormatter::percent(1), NumberFormatter::Percent(PercentFormatter::new(1)));
    assert_eq!(
        NumberFormatter::percent_default(),
        NumberFormatter::Percent(PercentFormatter::new(2))
    );
}

#[test]
fn ngrams_are_equal_by_kind_and_tokens() {
    let one = NGram::Unigram("a".to_owned());
    let two = NGram::Bigram("a".to_owned(), "b".to_owned());
    assert!(one == NGram::Unigram("a".to_owned()));
    assert!(one != NGram::Unigram("b".to_owned()));
    assert!(two == NGram::Bigram("a".to_owned(), "b".to_owned()));
    assert!(two != NGram::Bigram("a".to_owned(), "c".to_owned()));
    assert!(one != two);
    assert_eq!(one.ngram_type(), NGramType::Unigram);
    assert_eq!(two.ngram_type(), NGramType::Bigram);
}

#[test]
fn tokenizer_defaults_and_cursor_start() {
    let tokenizer = Tokenizer::default();
    assert!(tokenizer.lowercase && tokenizer.alphanumeric);
    let cursor = StrCursor::new("abc");
    assert_eq!(cursor.index, 0);
    assert_eq!(cursor.string, "abc");
}

#[test]
fn kill_chip_stays_set() {
    let kill_chip = shadow::kill_chip::KillChip::new();
    assert!(!kill_chip.is_activated());
    kill_chip.activate();
    assert!(kill_chip.is_activated());
    kill_chip.activate();
    assert!(kill_chip.is_activated());
}

#[test]
fn sorting_is_by_rank_and_keeps_the_order_of_equal_ranks() {
    let mut state: u64 = 0x9e37_79b9_7f4a_7c15;
    for length in [0usize, 1, 2, 3, 7, 64, 1000] {
        let mut items: Vec<(i64, u32, usize)> = Vec::new();
        for place in 0..length {
            state ^= state << 13;
            state ^= state >> 7;
            state ^= state << 17;
            items.push(((state % 17) as i64 - 8, (state >> 32) as u32, place));
        }
        let mut expected = items.clone();
        expected.sort_by_key(|item| item.0);
        shadow::sorting::sort_by_rank(&mut items);
        assert_eq!(items, expected);
    }
}
