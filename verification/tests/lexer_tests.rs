use xml_de::lexer::{XmlIterator, Lexical};
use xml_de::de::{InnerDeserializer, KeyDeserializer, Deserializer, Shape, Value};

#[test]
fn token_stream_of_a_small_document() {
    let mut it = XmlIterator::new(b"<a b=\"c\">t</a>".to_vec());
    assert_eq!(it.bump().unwrap(), Lexical::StartTagName(b"a".to_vec()));
    assert_eq!(it.bump().unwrap(), Lexical::AttributeName(b"b".to_vec()));
    assert_eq!(it.bump().unwrap(), Lexical::AttributeValue(b"c".to_vec()));
    assert_eq!(it.bump().unwrap(), Lexical::StartTagClose);
    assert_eq!(it.bump().unwrap(), Lexical::Text(b"t".to_vec()));
    assert_eq!(it.bump().unwrap(), Lexical::EndTagName(b"a".to_vec()));
    assert_eq!(it.bump().unwrap(), Lexical::EndOfFile);
}

#[test]
fn empty_element_token_carries_the_stashed_name() {
    let mut it = XmlIterator::new(b"<name x=\"1\"/>".to_vec());
    assert_eq!(it.bump().unwrap(), Lexical::StartTagName(b"name".to_vec()));
    assert_eq!(it.bump().unwrap(), Lexical::AttributeName(b"x".to_vec()));
    assert_eq!(it.bump().unwrap(), Lexical::AttributeValue(b"1".to_vec()));
    assert_eq!(it.bump().unwrap(), Lexical::EmptyElementEnd(b"name".to_vec()));
}

#[test]
fn stash_swaps_buffer_and_stash() {
    let mut it = XmlIterator::new(b"<a>t</a>".to_vec());
    it.bump().unwrap();
    assert_eq!(it.token_bytes(), &b"a".to_vec());
    it.stash();
    assert_eq!(it.stash_view(), &b"a".to_vec());
}

#[test]
fn inner_deserializer_decodes_at_a_tag_close() {
    let mut it = XmlIterator::new(b"<a>t</a>".to_vec());
    it.bump().unwrap();
    it.bump().unwrap();
    let (v, is_seq) = InnerDeserializer::decode(&mut it, &Shape::Scalar).unwrap();
    assert_eq!(v, Value::Text(b"t".to_vec()));
    assert!(!is_seq);
}

#[test]
fn key_deserializer_wraps_text_and_names_the_value_key() {
    let v = KeyDeserializer::visit(&b"k".to_vec());
    assert_eq!(v, Value::Text(b"k".to_vec()));
    assert_eq!(KeyDeserializer::value_map(), b"$value".to_vec());
}

#[test]
fn deserializer_reports_end_of_stream() {
    let mut de = Deserializer::new(b"<a>x</a>".to_vec());
    let v = de.deserialize(&Shape::Scalar).unwrap();
    assert_eq!(v, Value::Text(b"x".to_vec()));
    assert!(de.end().is_ok());
}
