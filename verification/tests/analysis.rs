//! Tests of the per-trace analyses: stack distances, both histograms, the
//! cross-metric invariant, display rendering, and trace equality.

use std::collections::hash_map::DefaultHasher;
use std::hash::Hash;
use std::hash::Hasher;

use canontrace::trace::Trace;

#[test]
fn stack_distance_basic() {
    assert_eq!(
        Trace::from(vec![1, 2, 3]).stack_distance(),
        vec![None, None, None]
    );
}

#[test]
fn stack_distance_repeated() {
    assert_eq!(
        Trace::from(vec![1, 1, 1]).stack_distance(),
        vec![None, Some(0), Some(0)]
    );
}

#[test]
fn stack_distance_one_two() {
    assert_eq!(
        Trace::from(vec![1, 2, 1, 1, 1]).stack_distance(),
        vec![None, None, Some(1), Some(0), Some(0)]
    );
}

#[test]
fn stack_distance_one_repeated() {
    assert_eq!(
        Trace::from(vec![1, 2, 3, 1]).stack_distance(),
        vec![None, None, None, Some(2)]
    );
}

#[test]
fn stack_distance_empty() {
    assert_eq!(Trace::from(vec![]).stack_distance(), vec![]);
}

#[test]
fn stack_distance_histogram_basic() {
    let (freqs, infinities) = Trace::from(vec![1, 2, 3]).stack_distance_histogram();
    assert_eq!(infinities, 3);
    assert_eq!(freqs, vec![]);
}

#[test]
fn stack_distance_histogram_repeated() {
    let (freqs, infinities) = Trace::from(vec![1, 1, 1]).stack_distance_histogram();
    assert_eq!(infinities, 1);
    assert_eq!(freqs, vec![2]);
}

#[test]
fn stack_distance_histogram_one_two() {
    let (freqs, infinities) = Trace::from(vec![1, 2, 1, 1, 1]).stack_distance_histogram();
    assert_eq!(infinities, 2);
    assert_eq!(freqs, vec![2, 1]);
}

#[test]
fn stack_distance_histogram_one_repeated() {
    let (freqs, infinities) = Trace::from(vec![1, 2, 3, 1]).stack_distance_histogram();
    assert_eq!(infinities, 3);
    assert_eq!(freqs, vec![0, 0, 1]);
}

#[test]
fn stack_distance_histogram_empty() {
    let (freqs, infinities) = Trace::from(vec![]).stack_distance_histogram();
    assert_eq!(infinities, 0);
    assert_eq!(freqs, vec![]);
}

#[test]
fn frequency_basic() {
    assert_eq!(
        Trace::from(vec![1, 2, 3]).frequency_histogram(),
        vec![0, 1, 1, 1]
    );
}

#[test]
fn frequency_repeated() {
    assert_eq!(Trace::from(vec![1, 1, 1]).frequency_histogram(), vec![0, 3]);
}

#[test]
fn frequency_one_two() {
    assert_eq!(
        Trace::from(vec![1, 2, 1, 1, 1]).frequency_histogram(),
        vec![0, 4, 1]
    );
}

#[test]
fn frequency_one_repeated() {
    assert_eq!(
        Trace::from(vec![1, 2, 3, 1]).frequency_histogram(),
        vec![0, 2, 1, 1]
    );
}

#[test]
fn frequency_empty() {
    assert_eq!(Trace::from(vec![]).frequency_histogram(), vec![]);
}

#[test]
fn totals_hold_on_sample_traces() {
    let samples: Vec<Vec<u32>> = vec![
        vec![],
        vec![1, 2, 3],
        vec![1, 1, 1],
        vec![1, 2, 1, 1, 1],
        vec![1, 2, 3, 1],
        vec![0, 5, 0, 5, 9, 9, 2],
    ];
    for symbols in samples {
        let len = symbols.len();
        let trace = Trace::from(symbols);
        let (counts, infinities) = trace.stack_distance_histogram();
        assert_eq!(counts.iter().sum::<usize>() + infinities, len);
        let freqs = trace.frequency_histogram();
        assert_eq!(freqs.iter().sum::<usize>(), len);
    }
}

#[test]
fn cold_misses_match_distinct_symbols_on_sample_traces() {
    let samples: Vec<Vec<u32>> = vec![
        vec![],
        vec![1, 2, 3],
        vec![1, 1, 1],
        vec![1, 2, 1, 1, 1],
        vec![1, 2, 3, 1],
        vec![7, 7, 3, 0, 3, 7],
    ];
    for symbols in samples {
        let trace = Trace::from(symbols);
        let (_, infinities) = trace.stack_distance_histogram();
        let nonzero = trace
            .frequency_histogram()
            .iter()
            .filter(|&&count| count != 0)
            .count();
        assert_eq!(infinities, nonzero);
    }
}

#[test]
fn equal_sequences_give_equal_traces() {
    let a = Trace::from(vec![0, 1, 0, 2]);
    let b = Trace::from(vec![0, 1, 0, 2]);
    assert_eq!(a, b);
    let mut hash_a = DefaultHasher::new();
    a.hash(&mut hash_a);
    let mut hash_b = DefaultHasher::new();
    b.hash(&mut hash_b);
    assert_eq!(hash_a.finish(), hash_b.finish());
}

#[test]
fn unequal_sequences_give_unequal_traces() {
    assert_ne!(Trace::from(vec![0, 1]), Trace::from(vec![0, 2]));
    assert_ne!(Trace::from(vec![0, 1]), Trace::from(vec![0, 1, 0]));
    assert_ne!(Trace::from(vec![]), Trace::from(vec![0]));
}

#[test]
fn render_uses_letters_for_small_symbols() {
    assert_eq!(Trace::from(vec![0, 1, 2, 0]).render(), "ABCA");
    assert_eq!(Trace::from(vec![25]).render(), "Z");
    assert_eq!(Trace::from(vec![]).render(), "");
}

#[test]
fn render_uses_decimals_for_large_symbols() {
    assert_eq!(Trace::from(vec![30]).render(), "30");
    assert_eq!(Trace::from(vec![0, 30]).render(), "0 30");
    assert_eq!(Trace::from(vec![123, 4]).render(), "123 4");
}

#[test]
fn symbols_returns_the_sequence() {
    let trace = Trace::from(vec![0, 1, 1, 2]);
    assert_eq!(trace.symbols(), &vec![0, 1, 1, 2]);
}
