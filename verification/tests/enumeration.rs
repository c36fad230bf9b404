//! Tests of the canonical-trace enumerator: the exact sets for small
//! lengths, Bell-number counts, canonical form, order, and uniqueness.

use std::collections::HashSet;

use canontrace::enumerate::TraceIter;
use canontrace::trace::compare;
use canontrace::trace::Trace;

fn all_traces(trace_size: usize) -> Vec<Trace> {
    let mut iter = TraceIter::new(trace_size);
    let mut traces = Vec::new();
    while let Some(trace) = iter.next() {
        traces.push(trace);
    }
    traces
}

fn is_restricted_growth(symbols: &[u32]) -> bool {
    let mut bound: u32 = 0;
    for &symbol in symbols {
        if symbol > bound {
            return false;
        }
        if symbol == bound {
            bound += 1;
        }
    }
    true
}

#[test]
fn trace_iter_works_three() {
    assert_eq!(
        all_traces(3).into_iter().collect::<HashSet<_>>(),
        HashSet::from([
            Trace::from(vec![0, 0, 0]),
            Trace::from(vec![0, 0, 1]),
            Trace::from(vec![0, 1, 0]),
            Trace::from(vec![0, 1, 1]),
            Trace::from(vec![0, 1, 2]),
        ])
    );
}

#[test]
fn trace_iter_works_four() {
    assert_eq!(
        all_traces(4).into_iter().collect::<HashSet<_>>(),
        HashSet::from([
            Trace::from(vec![0, 0, 0, 0]),
            Trace::from(vec![0, 0, 0, 1]),
            Trace::from(vec![0, 0, 1, 0]),
            Trace::from(vec![0, 0, 1, 1]),
            Trace::from(vec![0, 0, 1, 2]),
            Trace::from(vec![0, 1, 0, 0]),
            Trace::from(vec![0, 1, 0, 1]),
            Trace::from(vec![0, 1, 0, 2]),
            Trace::from(vec![0, 1, 1, 0]),
            Trace::from(vec![0, 1, 1, 1]),
            Trace::from(vec![0, 1, 1, 2]),
            Trace::from(vec![0, 1, 2, 0]),
            Trace::from(vec![0, 1, 2, 1]),
            Trace::from(vec![0, 1, 2, 2]),
            Trace::from(vec![0, 1, 2, 3]),
        ])
    );
}

#[test]
fn counts_are_bell_numbers() {
    assert_eq!(all_traces(0).len(), 1);
    assert_eq!(all_traces(1).len(), 1);
    assert_eq!(all_traces(2).len(), 2);
    assert_eq!(all_traces(3).len(), 5);
    assert_eq!(all_traces(4).len(), 15);
    assert_eq!(all_traces(5).len(), 52);
}

#[test]
fn emitted_traces_are_distinct_and_canonical() {
    for trace_size in 0..6 {
        let traces = all_traces(trace_size);
        let distinct: HashSet<_> = traces.iter().map(|t| t.symbols().clone()).collect();
        assert_eq!(distinct.len(), traces.len());
        for trace in &traces {
            assert_eq!(trace.symbols().len(), trace_size);
            assert!(is_restricted_growth(trace.symbols()));
        }
    }
}

#[test]
fn emitted_traces_come_in_increasing_order() {
    for trace_size in 0..6 {
        let traces = all_traces(trace_size);
        for pair in traces.windows(2) {
            assert!(pair[0].symbols() < pair[1].symbols());
        }
    }
}

#[test]
fn enumeration_starts_at_zero_and_covers_every_canonical_trace() {
    // every length-4 sequence over 0..4, filtered for canonical form,
    // must be emitted
    let emitted = all_traces(4);
    assert_eq!(emitted[0], Trace::from(vec![0, 0, 0, 0]));
    let mut expected = Vec::new();
    for a in 0..4u32 {
        for b in 0..4u32 {
            for c in 0..4u32 {
                for d in 0..4u32 {
                    let symbols = vec![a, b, c, d];
                    if is_restricted_growth(&symbols) {
                        expected.push(Trace::from(symbols));
                    }
                }
            }
        }
    }
    assert_eq!(emitted.len(), expected.len());
    for trace in expected {
        assert!(emitted.contains(&trace));
    }
}

#[test]
fn skipped_repeat_positions_are_still_reached() {
    // a canonical trace whose next-to-last position repeats an old symbol
    // while a larger one stands before it
    let traces = all_traces(5);
    assert!(traces.contains(&Trace::from(vec![0, 1, 2, 0, 2])));
}

#[test]
fn exhausted_enumerator_stays_exhausted() {
    let mut iter = TraceIter::new(2);
    assert!(iter.next().is_some());
    assert!(iter.next().is_some());
    assert!(iter.next().is_none());
    assert!(iter.next().is_none());
}

#[test]
fn invariant_check_passes_on_enumerated_traces() {
    for trace_size in 0..6 {
        let mut iter = TraceIter::new(trace_size);
        while let Some(trace) = iter.next() {
            compare(trace);
        }
    }
}
