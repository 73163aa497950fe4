use atria::model::TextBuffer;

#[test]
fn text_longer_than_the_protocol_carries_is_refused() {
    assert!(
        TextBuffer::new(&"a".repeat(4097)).is_none(),
        "an input method commits a phrase, not a document"
    );
    assert!(TextBuffer::new(&"a".repeat(4096)).is_some());
}
