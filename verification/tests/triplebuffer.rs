use obmerge::triplebuffer::TripleBuffer;

#[test]
fn new_buffer_has_nothing_on_top() {
    let b: TripleBuffer<u32> = TripleBuffer::new();
    assert_eq!(b.top(), None);
}

#[test]
fn empty_reports_whether_a_write_was_made() {
    let b: TripleBuffer<String> = TripleBuffer::new();
    // no write was made on a new buffer
    assert!(!b.empty());
}
