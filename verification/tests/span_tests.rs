use errgonomic::span::Span;

#[test]
fn span_test_new() {
    let span = Span::new(5, 10);
    assert_eq!(span.head(), 5);
    assert_eq!(span.tail(), 10);
}

#[test]
fn test_len() {
    let span = Span::new(5, 10);
    assert_eq!(span.len(), 5);

    let empty_span = Span::new(7, 7);
    assert_eq!(empty_span.len(), 0);
}

#[test]
fn test_is_empty() {
    let span = Span::new(5, 10);
    assert!(!span.is_empty());

    let empty_span = Span::new(7, 7);
    assert!(empty_span.is_empty());
}

#[test]
fn test_head_tail_getters() {
    let span = Span::new(5, 10);
    assert_eq!(span.head(), 5);
    assert_eq!(span.tail(), 10);
}

#[test]
fn test_increment_head() {
    let mut span = Span::new(5, 10);

    let old_head = span.increment_head(2);
    assert_eq!(old_head, 5);
    assert_eq!(span.head(), 7);
    assert_eq!(span.tail(), 10);

    let old_head = span.increment_head(0);
    assert_eq!(old_head, 7);
    assert_eq!(span.head(), 7);

    let old_head = span.increment_head(5);
    assert_eq!(old_head, 7);
    assert_eq!(span.head(), 10);
    assert_eq!(span.tail(), 10);
    assert!(span.is_empty());

    let old_head = span.increment_head(1);
    assert_eq!(old_head, 10);
    assert_eq!(span.head(), 10);
    assert!(span.is_empty());
}

#[test]
fn span_test_take() {
    let span = Span::new(5, 10);

    let taken = span.take(3);
    assert_eq!(taken.head(), 5);
    assert_eq!(taken.tail(), 8);
    assert_eq!(taken.len(), 3);

    let taken = span.take(0);
    assert_eq!(taken.head(), 5);
    assert_eq!(taken.tail(), 5);
    assert_eq!(taken.len(), 0);
    assert!(taken.is_empty());

    let taken = span.take(10);
    assert_eq!(taken.head(), 5);
    assert_eq!(taken.tail(), 10);
    assert_eq!(taken.len(), 5);

    let empty_span = Span::new(7, 7);
    let taken = empty_span.take(3);
    assert_eq!(taken.head(), 7);
    assert_eq!(taken.tail(), 7);
    assert_eq!(taken.len(), 0);
    assert!(taken.is_empty());
}

#[test]
fn span_test_skip() {
    let span = Span::new(5, 10);

    let skipped = span.skip(2);
    assert_eq!(skipped.head(), 7);
    assert_eq!(skipped.tail(), 10);
    assert_eq!(skipped.len(), 3);

    let skipped = span.skip(0);
    assert_eq!(skipped.head(), 5);
    assert_eq!(skipped.tail(), 10);
    assert_eq!(skipped.len(), 5);

    let skipped = span.skip(10);
    assert_eq!(skipped.head(), 10);
    assert_eq!(skipped.tail(), 10);
    assert_eq!(skipped.len(), 0);
    assert!(skipped.is_empty());

    let empty_span = Span::new(7, 7);
    let skipped = empty_span.skip(3);
    assert_eq!(skipped.head(), 7);
    assert_eq!(skipped.tail(), 7);
    assert_eq!(skipped.len(), 0);
    assert!(skipped.is_empty());
}

#[test]
fn test_chain_operations() {
    let span = Span::new(0, 10);

    let taken1 = span.take(8);
    let taken2 = taken1.take(3);
    assert_eq!(taken2.head(), 0);
    assert_eq!(taken2.tail(), 3);

    let skipped1 = span.skip(2);
    let skipped2 = skipped1.skip(3);
    assert_eq!(skipped2.head(), 5);
    assert_eq!(skipped2.tail(), 10);

    let skipped = span.skip(2);
    let taken = skipped.take(3);
    assert_eq!(taken.head(), 2);
    assert_eq!(taken.tail(), 5);

    let taken = span.take(8);
    let skipped = taken.skip(3);
    assert_eq!(skipped.head(), 3);
    assert_eq!(skipped.tail(), 8);
}

#[test]
fn span_test_edge_cases() {
    let invalid_span = Span::new(10, 5);
    assert_eq!(invalid_span.len(), 0);

    let max_span = Span::new(usize::MAX - 10, usize::MAX);
    assert_eq!(max_span.len(), 10);

    let mut big_span = Span::new(usize::MAX - 10, usize::MAX);
    let old_head = big_span.increment_head(5);
    assert_eq!(old_head, usize::MAX - 10);
    assert_eq!(big_span.head(), usize::MAX - 5);
}

#[test]
fn is_correctly_overlapping() {
    let span1 = Span::new(0, 5);
    let span2 = Span::new(3, 7);
    assert!(span1.is_overlapping(span2));
    assert!(span2.is_overlapping(span1));

    let span1 = Span::new(0, 5);
    let span2 = Span::new(5, 7);
    assert!(span1.is_overlapping(span2));
    assert!(span2.is_overlapping(span1));

    let span1 = Span::new(0, 5);
    let span2 = Span::new(6, 7);
    assert!(!span1.is_overlapping(span2));
    assert!(!span2.is_overlapping(span1));
}

#[test]
fn is_correctly_intersecting() {
    let span1 = Span::new(0, 5);
    let span2 = Span::new(3, 7);
    assert_eq!(span1.intersect(span2), Span::new(3, 5));
    assert_eq!(span2.intersect(span1), Span::new(3, 5));

    let span1 = Span::new(0, 5);
    let span2 = Span::new(5, 7);
    assert_eq!(span1.intersect(span2), Span::new(5, 5));
    assert_eq!(span2.intersect(span1), Span::new(5, 5));
}

#[test]
fn is_correctly_unioning() {
    let span1 = Span::new(0, 5);
    let span2 = Span::new(3, 7);
    assert_eq!(span1.union(span2), Span::new(0, 7));
    assert_eq!(span2.union(span1), Span::new(0, 7));

    let span1 = Span::new(0, 5);
    let span2 = Span::new(5, 7);
    assert_eq!(span1.union(span2), Span::new(0, 7));
    assert_eq!(span2.union(span1), Span::new(0, 7));
}

#[test]
fn span_is_correctly_subtracting() {
    let span1 = Span::new(0, 5);
    let span2 = Span::new(3, 7);
    assert_eq!(span1.subtract(span2), Span::new(0, 3));
    assert_eq!(span2.subtract(span1), Span::new(5, 7));

    let span1 = Span::new(0, 5);
    let span2 = Span::new(5, 7);
    assert_eq!(span1.subtract(span2), Span::new(0, 5));
    assert_eq!(span2.subtract(span1), Span::new(5, 7));

    let span1 = Span::new(0, 5);
    let span2 = Span::new(0, 5);
    assert_eq!(span1.subtract(span2), Span::new(0, 0));
    assert_eq!(span2.subtract(span1), Span::new(0, 0));
}

#[test]
fn test_union_between() {
    let span1 = Span::new(0, 5);
    let span2 = Span::new(3, 8);
    assert_eq!(span1.union_between(span2), Span::new(0, 8));

    let span1 = Span::new(0, 10);
    let span2 = Span::new(2, 5);
    assert_eq!(span1.union_between(span2), Span::new(0, 10));

    let span1 = Span::new(0, 5);
    let span2 = Span::new(6, 10);
    assert_eq!(span1.union_between(span2), Span::new(0, 10));

    let span1 = Span::new(0, 5);
    let span2 = Span::new(10, 15);
    assert_eq!(span1.union_between(span2), Span::new(0, 15));

    let span1 = Span::new(0, 5);
    let span2 = Span::new(5, 10);
    assert_eq!(span1.union_between(span2), Span::new(0, 10));

    let span1 = Span::new(10, 15);
    let span2 = Span::new(0, 5);
    assert_eq!(span1.union_between(span2), Span::new(0, 15));

    let span1 = Span::new(5, 10);
    let span2 = Span::new(5, 10);
    assert_eq!(span1.union_between(span2), Span::new(5, 10));

    let span1 = Span::new(0, 5);
    let span2 = Span::new(5, 5);
    assert_eq!(span1.union_between(span2), Span::new(0, 5));
}
