use xml_de::de::{from_str, from_iter, Shape, Field, VariantDef, VariantPayload, Value, Entry};
use xml_de::error::{Error, ErrorCode, Expectation};
use xml_de::lexer::LexerError;

fn scalar() -> Shape {
    Shape::Scalar
}

fn field(name: &str, shape: Shape) -> Field {
    Field { name: name.as_bytes().to_vec(), shape }
}

fn text(s: &str) -> Value {
    Value::Text(s.as_bytes().to_vec())
}

fn entry(key: &str, value: Value) -> Entry {
    Entry { key: key.as_bytes().to_vec(), value }
}

#[test]
fn scalar_element_yields_its_text() {
    let v = from_str("<a>text</a>", &scalar()).unwrap();
    assert_eq!(v, text("text"));
}

#[test]
fn empty_pair_of_tags_yields_empty_text() {
    let v = from_str("<a></a>", &scalar()).unwrap();
    assert_eq!(v, text(""));
}

#[test]
fn self_closing_optional_is_none() {
    let sh = Shape::Optional(Box::new(scalar()));
    let v = from_str("<a/>", &sh).unwrap();
    assert_eq!(v, Value::Nothing);
}

#[test]
fn filled_optional_is_some() {
    let sh = Shape::Optional(Box::new(scalar()));
    let v = from_str("<a>text</a>", &sh).unwrap();
    assert_eq!(v, Value::Present(Box::new(text("text"))));
}

#[test]
fn sequence_of_siblings_in_order() {
    let sh = Shape::Keyed(vec![field("b", Shape::Sequence(Box::new(scalar())))]);
    let v = from_str("<a><b>1</b><b>2</b><b>3</b></a>", &sh).unwrap();
    let want = Value::Record(vec![entry(
        "b",
        Value::List(vec![text("1"), text("2"), text("3")]),
    )]);
    assert_eq!(v, want);
}

#[test]
fn differently_named_sibling_ends_the_sequence() {
    let sh = Shape::Keyed(vec![
        field("b", Shape::Sequence(Box::new(scalar()))),
        field("c", scalar()),
    ]);
    let v = from_str("<a><b>1</b><b>2</b><c>9</c></a>", &sh).unwrap();
    let want = Value::Record(vec![
        entry("b", Value::List(vec![text("1"), text("2")])),
        entry("c", text("9")),
    ]);
    assert_eq!(v, want);
}

#[test]
fn named_entities_round_trip() {
    let v = from_str("<a>&lt;&gt;&amp;&apos;&quot;</a>", &scalar()).unwrap();
    assert_eq!(v, text("<>&'\""));
}

#[test]
fn decimal_and_hex_references_agree() {
    let d = from_str("<a>&#65;</a>", &scalar()).unwrap();
    let h = from_str("<a>&#x41;</a>", &scalar()).unwrap();
    assert_eq!(d, text("A"));
    assert_eq!(h, text("A"));
    assert_eq!(d, h);
}

#[test]
fn leading_zeros_in_references_are_tolerated() {
    let v = from_str("<a>&#065;&#x041;</a>", &scalar()).unwrap();
    assert_eq!(v, text("AA"));
}

#[test]
fn multi_byte_code_point_is_utf8_encoded() {
    let v = from_str("<a>&#x20AC;</a>", &scalar()).unwrap();
    assert_eq!(v, Value::Text(vec![0xE2, 0x82, 0xAC]));
}

#[test]
fn malformed_hex_reference_is_a_lexical_error() {
    let e = from_str("<a>&#xZZ;</a>", &scalar()).unwrap_err();
    assert!(matches!(
        e,
        Error::SyntaxError(ErrorCode::LexingError(LexerError::NotAHex(b'Z')), _, _)
    ));
}

#[test]
fn overflowing_reference_is_a_lexical_error() {
    let e = from_str("<a>&#99999999999;</a>", &scalar()).unwrap_err();
    assert!(matches!(
        e,
        Error::SyntaxError(ErrorCode::LexingError(LexerError::EscapedNotUtf8), _, _)
    ));
}

#[test]
fn surrogate_reference_is_refused() {
    let e = from_str("<a>&#xD800;</a>", &scalar()).unwrap_err();
    assert!(matches!(
        e,
        Error::SyntaxError(ErrorCode::LexingError(LexerError::EscapedNotUtf8), _, _)
    ));
}

#[test]
fn unknown_named_entity_is_refused_with_position() {
    let e = from_str("\n\n<a>&q;</a>", &scalar()).unwrap_err();
    match e {
        Error::SyntaxError(ErrorCode::LexingError(LexerError::BadEscapeSequence), line, col) => {
            assert_eq!(line, 3);
            assert_eq!(col, 6);
        },
        other => panic!("unexpected error {:?}", other),
    }
}

#[test]
fn cdata_false_terminator_drops_no_bytes() {
    let v = from_str("<a><![CDATA[a]]b]]></a>", &scalar()).unwrap();
    assert_eq!(v, text("a]]b"));
}

#[test]
fn cdata_and_text_concatenate() {
    let v = from_str("<a>x<![CDATA[<y>]]>z</a>", &scalar()).unwrap();
    assert_eq!(v, text("x<y>z"));
}

#[test]
fn namespace_prefix_on_tags_is_stripped() {
    let plain = from_str("<item>x</item>", &scalar()).unwrap();
    let prefixed = from_str("<ns:item>x</ns:item>", &scalar()).unwrap();
    assert_eq!(plain, prefixed);
    assert_eq!(prefixed, text("x"));
}

#[test]
fn namespace_prefix_on_attributes_is_stripped() {
    let sh = Shape::Keyed(vec![field("id", scalar())]);
    let v = from_str("<a ns:id=\"5\"/>", &sh).unwrap();
    assert_eq!(v, Value::Record(vec![entry("id", text("5"))]));
}

#[test]
fn default_namespace_declarations_are_discarded() {
    let sh = Shape::Keyed(vec![field("id", scalar())]);
    let v = from_str("<a xmlns=\"urn:x\" id=\"7\"></a>", &sh).unwrap();
    assert_eq!(v, Value::Record(vec![entry("id", text("7"))]));
    let v2 = from_str("<a xmlns:n=\"urn:y\" id=\"8\"/>", &sh).unwrap();
    assert_eq!(v2, Value::Record(vec![entry("id", text("8"))]));
}

#[test]
fn unit_variant_selected_by_type_attribute() {
    let sh = Shape::Variant(vec![
        VariantDef { name: b"A".to_vec(), payload: VariantPayload::Unit },
        VariantDef { name: b"B".to_vec(), payload: VariantPayload::Unit },
    ]);
    let v = from_str("<e xsi:type=\"A\"/>", &sh).unwrap();
    assert_eq!(v, Value::Variant(b"A".to_vec(), Box::new(Value::Unit)));
}

#[test]
fn missing_type_attribute_is_a_structural_error() {
    let sh = Shape::Variant(vec![VariantDef {
        name: b"A".to_vec(),
        payload: VariantPayload::Unit,
    }]);
    let e = from_str("<e foo=\"A\"/>", &sh).unwrap_err();
    assert!(matches!(
        e,
        Error::SyntaxError(ErrorCode::Expected(Expectation::TypeAttribute), _, _)
    ));
    let e2 = from_str("<e/>", &sh).unwrap_err();
    assert!(matches!(
        e2,
        Error::SyntaxError(ErrorCode::Expected(Expectation::AttributeName), _, _)
    ));
}

#[test]
fn inline_variant_carries_its_text() {
    let sh = Shape::Variant(vec![VariantDef {
        name: b"B".to_vec(),
        payload: VariantPayload::Inline,
    }]);
    let v = from_str("<e xsi:type=\"B\">hi</e>", &sh).unwrap();
    assert_eq!(v, Value::Variant(b"B".to_vec(), Box::new(text("hi"))));
}

#[test]
fn structured_variant_decodes_children() {
    let sh = Shape::Variant(vec![VariantDef {
        name: b"C".to_vec(),
        payload: VariantPayload::Structured(vec![field("k", scalar())]),
    }]);
    let v = from_str("<e xsi:type=\"C\"><k>v</k></e>", &sh).unwrap();
    assert_eq!(
        v,
        Value::Variant(
            b"C".to_vec(),
            Box::new(Value::Record(vec![entry("k", text("v"))])),
        )
    );
}

#[test]
fn sibling_elements_with_identical_attribute_names_stay_distinct() {
    let inner = Shape::Keyed(vec![field("x", scalar())]);
    let sh = Shape::Keyed(vec![field("b", Shape::Sequence(Box::new(inner)))]);
    let v = from_str("<a><b x=\"1\"/><b x=\"2\"/></a>", &sh).unwrap();
    let want = Value::Record(vec![entry(
        "b",
        Value::List(vec![
            Value::Record(vec![entry("x", text("1"))]),
            Value::Record(vec![entry("x", text("2"))]),
        ]),
    )]);
    assert_eq!(v, want);
}

#[test]
fn attributes_then_inline_text_as_value_key() {
    let sh = Shape::Keyed(vec![field("id", scalar()), field("$value", scalar())]);
    let v = from_str("<a id=\"1\">hello</a>", &sh).unwrap();
    let want = Value::Record(vec![entry("id", text("1")), entry("$value", text("hello"))]);
    assert_eq!(v, want);
}

#[test]
fn missing_fields_take_their_absent_values() {
    let sh = Shape::Keyed(vec![
        field("o", Shape::Optional(Box::new(scalar()))),
        field("s", Shape::Sequence(Box::new(scalar()))),
        field("t", scalar()),
    ]);
    let v = from_str("<a/>", &sh).unwrap();
    let want = Value::Record(vec![
        entry("o", Value::Nothing),
        entry("s", Value::List(vec![])),
        entry("t", Value::Unit),
    ]);
    assert_eq!(v, want);
}

#[test]
fn missing_variant_field_is_an_error() {
    let sh = Shape::Keyed(vec![field(
        "v",
        Shape::Variant(vec![VariantDef { name: b"A".to_vec(), payload: VariantPayload::Unit }]),
    )]);
    let e = from_str("<a/>", &sh).unwrap_err();
    assert!(matches!(e, Error::MissingField(ref n) if n == b"v"));
}

#[test]
fn unknown_attribute_fails_the_decode() {
    let sh = Shape::Keyed(vec![]);
    let e = from_str("<a z=\"1\"/>", &sh).unwrap_err();
    assert!(matches!(e, Error::UnknownField(ref n) if n == b"z"));
}

#[test]
fn mixed_text_and_elements_are_rejected() {
    let sh = Shape::Keyed(vec![field("b", scalar())]);
    let e = from_str("<a>tx<b>1</b></a>", &sh).unwrap_err();
    assert!(matches!(
        e,
        Error::SyntaxError(
            ErrorCode::LexingError(LexerError::MixedElementsAndText),
            _,
            _
        )
    ));
}

#[test]
fn comments_and_declarations_are_skipped() {
    let v = from_str("<?xml version=\"1.0\"?><a><!-- note -->t</a>", &scalar()).unwrap();
    assert_eq!(v, text("t"));
}

#[test]
fn unterminated_comment_surfaces_end_of_stream() {
    let e = from_str("<a><!-- never closed", &scalar()).unwrap_err();
    assert!(matches!(
        e,
        Error::SyntaxError(ErrorCode::LexingError(LexerError::EOF), _, _)
    ));
}

#[test]
fn trailing_content_after_root_is_refused() {
    let e = from_str("<a>x</a><b/>", &scalar()).unwrap_err();
    assert!(matches!(
        e,
        Error::SyntaxError(ErrorCode::Expected(Expectation::EndOfFile), _, _)
    ));
}

#[test]
fn whitespace_before_closing_tag_ends_a_sequence() {
    let sh = Shape::Keyed(vec![field("b", Shape::Sequence(Box::new(scalar())))]);
    let v = from_str("<a><b>1</b> </a>", &sh).unwrap();
    assert_eq!(
        v,
        Value::Record(vec![entry("b", Value::List(vec![text("1")]))])
    );
}

#[test]
fn from_iter_decodes_bytes() {
    let v = from_iter(b"<a>bytes</a>".to_vec(), &scalar()).unwrap();
    assert_eq!(v, text("bytes"));
}

#[test]
fn text_that_is_not_utf8_is_refused() {
    let mut doc = b"<a>".to_vec();
    doc.push(0xFF);
    doc.extend_from_slice(b"</a>");
    let e = from_iter(doc, &scalar()).unwrap_err();
    assert!(matches!(e, Error::SyntaxError(ErrorCode::NotUtf8, _, _)));
}

#[test]
fn multi_byte_text_passes_utf8_validation() {
    let v = from_iter("<a>\u{20AC}\u{1F600}</a>".as_bytes().to_vec(), &scalar()).unwrap();
    assert_eq!(v, Value::Text("\u{20AC}\u{1F600}".as_bytes().to_vec()));
}

#[test]
fn whitespace_only_content_is_skipped_without_a_text_field() {
    let sh = Shape::Keyed(vec![field("x", Shape::Optional(Box::new(scalar())))]);
    let v = from_str("<a> </a>", &sh).unwrap();
    assert_eq!(v, Value::Record(vec![entry("x", Value::Nothing)]));
}

#[test]
fn whitespace_only_content_feeds_a_text_field() {
    let sh = Shape::Keyed(vec![field("$value", scalar())]);
    let v = from_str("<a> </a>", &sh).unwrap();
    assert_eq!(v, Value::Record(vec![entry("$value", text(" "))]));
}

#[test]
fn nested_records_decode_recursively() {
    let inner = Shape::Keyed(vec![field("y", scalar())]);
    let sh = Shape::Keyed(vec![field("b", inner)]);
    let v = from_str("<a><b><y>7</y></b></a>", &sh).unwrap();
    let want = Value::Record(vec![entry(
        "b",
        Value::Record(vec![entry("y", text("7"))]),
    )]);
    assert_eq!(v, want);
}

#[test]
fn sequence_directly_inside_a_sequence_is_refused() {
    let sh = Shape::Keyed(vec![field(
        "b",
        Shape::Sequence(Box::new(Shape::Sequence(Box::new(scalar())))),
    )]);
    let e = from_str("<a><b>1</b></a>", &sh).unwrap_err();
    assert!(matches!(
        e,
        Error::SyntaxError(ErrorCode::XmlDoesntSupportSeqofSeq, _, _)
    ));
}
