use calculator::text_range::TextRange;

#[test]
fn text_range_keeps_order() {
    let r = TextRange::new(2, 5);
    assert_eq!(r.start, 2);
    assert_eq!(r.end, 5);
    assert_eq!(r.len(), 3);
    assert_eq!(r.fill('~'), "~~~");
}

#[test]
fn text_range_clamps_end_to_start() {
    let r = TextRange::new(7, 3);
    assert_eq!(r.start, 7);
    assert_eq!(r.end, 7);
    assert_eq!(r.len(), 0);
    assert_eq!(r.fill('^'), "");
}
