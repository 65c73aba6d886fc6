use wallfacer::chyron::chyron_text;

#[test]
fn payload_on_the_subscribed_topic_is_trimmed() {
    assert_eq!(chyron_text("wallfacer", "wallfacer", b"  {\"text\": \"hi\"}\n"), Some("{\"text\": \"hi\"}"));
    assert_eq!(chyron_text("wallfacer", "wallfacer", "caf\u{e9}".as_bytes()), Some("caf\u{e9}"));
}

#[test]
fn other_topics_invalid_and_blank_payloads_are_dropped() {
    assert_eq!(chyron_text("other", "wallfacer", b"hello"), None);
    assert_eq!(chyron_text("wallfacer", "wallfacer", &[0x66, 0xff, 0x66]), None);
    assert_eq!(chyron_text("wallfacer", "wallfacer", b" \t\r\n "), None);
    assert_eq!(chyron_text("wallfacer", "wallfacer", b""), None);
}
