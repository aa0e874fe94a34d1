//! The shape-directed decoder.
//!
//! A [`Shape`] describes the value a caller wants: a scalar, an optional,
//! a sequence of sibling elements, a keyed structure, or a tagged variant.
//! The decoder walks the token stream with one-token lookahead and builds
//! the matching [`Value`], enforcing the document grammar as it goes. Its
//! central guarantee: every value returned fits the requested shape.

use vstd::prelude::*;
use vstd::string::{StrSliceExecFns, StringSliceAdditionalSpecFns};
use crate::ws::{all_ws, bytes_are_ws};
use crate::error::{Error, ErrorCode, Expectation};
use crate::lexer::{
    XmlIterator, TokenKind, Lexical, LexerState, lex_matches, lex_step, stash_for_step,
    LexOutcome, lemma_lex_step_bounds, is_utf8,
};

verus! {

broadcast use vstd::std_specs::vec::axiom_vec_index_decreases;

/// The shape of the value a decode is asked to produce.
#[derive(Debug)]
pub enum Shape {
    /// A single text value.
    Scalar,
    /// A value that may be absent: a self-closing element yields nothing.
    Optional(Box<Shape>),
    /// Repeated sibling elements sharing one tag name.
    Sequence(Box<Shape>),
    /// A keyed structure: attributes, then inline text or child elements.
    Keyed(Vec<Field>),
    /// A tagged variant selected by the element's `xsi:type` attribute.
    Variant(Vec<VariantDef>),
}

/// One field of a keyed structure.
#[derive(Debug)]
pub struct Field {
    pub name: Vec<u8>,
    pub shape: Shape,
}

/// One admissible variant of a tagged-variant value.
#[derive(Debug)]
pub struct VariantDef {
    pub name: Vec<u8>,
    pub payload: VariantPayload,
}

/// The payload a variant carries.
#[derive(Debug)]
pub enum VariantPayload {
    /// No payload: the element must be self-closing.
    Unit,
    /// A single inline text value.
    Inline,
    /// A keyed payload: attributes and children of the element.
    Structured(Vec<Field>),
}

/// A decoded value.
#[derive(Debug, PartialEq)]
pub enum Value {
    /// Text bytes, entity-decoded.
    Text(Vec<u8>),
    /// The unit value, from a self-closing or absent element.
    Unit,
    /// An absent optional.
    Nothing,
    /// A present optional.
    Present(Box<Value>),
    /// A sequence's elements, in document order.
    List(Vec<Value>),
    /// A keyed structure's entries: content entries in document order,
    /// then one entry for each requested field that was absent.
    Record(Vec<Entry>),
    /// A variant's name and payload.
    Variant(Vec<u8>, Box<Value>),
}

/// One key/value pair of a keyed structure.
#[derive(Debug, PartialEq)]
pub struct Entry {
    pub key: Vec<u8>,
    pub value: Value,
}

/// The reserved key that carries an element's own inline text when it is
/// decoded as one field of a keyed structure.
pub open spec fn value_key() -> Seq<u8> {
    seq![0x24u8, 0x76u8, 0x61u8, 0x6cu8, 0x75u8, 0x65u8]
}

/// The post-stripping name of the `xsi:type` attribute that selects a
/// variant.
pub open spec fn type_attr_name() -> Seq<u8> {
    seq![0x74u8, 0x79u8, 0x70u8, 0x65u8]
}

/// A value fits a scalar position: text, or unit for an absent payload.
pub open spec fn fits_scalar(v: Value) -> bool {
    v is Text || v is Unit
}

/// The value matches the requested shape: the decoder's central promise.
pub open spec fn value_fits(v: Value, sh: Shape) -> bool
    decreases sh,
{
    match sh {
        Shape::Scalar => fits_scalar(v),
        Shape::Optional(inner) => v is Nothing || (v matches Value::Present(b) && value_fits(*b, *inner)),
        Shape::Sequence(inner) => v matches Value::List(items)
            && forall|k: int| 0 <= k < items.len() ==> value_fits(#[trigger] items[k], *inner),
        Shape::Keyed(fields) => v matches Value::Record(entries) && entries_fit(entries, fields),
        Shape::Variant(defs) => v matches Value::Variant(name, payload)
            && exists|k: int| 0 <= k < defs.len() && (#[trigger] defs[k]).name@ == name@
                && payload_fits(*payload, defs[k].payload),
    }
}

/// Every entry decodes some requested field.
pub open spec fn entries_fit(entries: Vec<Entry>, fields: Vec<Field>) -> bool
    decreases fields,
{
    forall|j: int| 0 <= j < entries.len() ==> exists|k: int| 0 <= k < fields.len()
        && (#[trigger] fields[k]).name@ == (#[trigger] entries[j]).key@
        && value_fits(entries[j].value, fields[k].shape)
}

/// A variant payload value matches the payload shape its variant declares.
pub open spec fn payload_fits(v: Value, p: VariantPayload) -> bool
    decreases p,
{
    match p {
        VariantPayload::Unit => v is Unit,
        VariantPayload::Inline => v is Text,
        VariantPayload::Structured(fields) => v matches Value::Record(entries)
            && entries_fit(entries, fields),
    }
}

} // verus!

verus! {

/// Index of the first variant definition bearing `name`, from `i` on.
pub open spec fn variant_index_from(defs: Vec<VariantDef>, name: Seq<u8>, i: int) -> Option<int>
    decreases defs.len() - i,
{
    if i < 0 || i >= defs.len() {
        None
    } else if defs[i].name@ == name {
        Some(i)
    } else {
        variant_index_from(defs, name, i + 1)
    }
}

/// Index of the first variant definition bearing `name`.
pub open spec fn variant_index(defs: Vec<VariantDef>, name: Seq<u8>) -> Option<int> {
    variant_index_from(defs, name, 0)
}

/// Byte-string equality.
fn bytes_eq(a: &Vec<u8>, b: &Vec<u8>) -> (r: bool)
    ensures
        r == (a@ == b@),
{
    if a.len() != b.len() {
        proof {
            assert(a@ != b@);
        }
        return false;
    }
    let mut i: usize = 0;
    while i < a.len()
        invariant
            0 <= i <= a@.len(),
            a@.len() == b@.len(),
            forall|j: int| 0 <= j < i ==> a@[j] == b@[j],
        decreases a@.len() - i,
    {
        if a[i] != b[i] {
            return false;
        }
        i = i + 1;
    }
    proof {
        assert(a@ =~= b@);
    }
    true
}

/// An owned copy of a byte string.
fn own_bytes(v: &Vec<u8>) -> (r: Vec<u8>)
    ensures
        r@ == v@,
{
    let mut r: Vec<u8> = Vec::new();
    let mut i: usize = 0;
    while i < v.len()
        invariant
            0 <= i <= v@.len(),
            r@ == v@.subrange(0, i as int),
        decreases v@.len() - i,
    {
        r.push(v[i]);
        proof {
            assert(r@ =~= v@.subrange(0, i + 1));
        }
        i = i + 1;
    }
    proof {
        assert(v@.subrange(0, v@.len() as int) =~= v@);
    }
    r
}

/// The name equals `type`, the post-stripping name of `xsi:type`.
fn is_type_attr(n: &Vec<u8>) -> (r: bool)
    ensures
        r == (n@ == type_attr_name()),
{
    let r = n.len() == 4 && n[0] == 0x74 && n[1] == 0x79 && n[2] == 0x70 && n[3] == 0x65;
    proof {
        assert(type_attr_name().len() == 4);
        assert(type_attr_name()[0] == 0x74u8);
        assert(type_attr_name()[1] == 0x79u8);
        assert(type_attr_name()[2] == 0x70u8);
        assert(type_attr_name()[3] == 0x65u8);
        if r {
            assert(n@ =~= type_attr_name());
        }
    }
    r
}

/// Index of the first field bearing `name`, from `i` on.
pub open spec fn field_index_from(fields: Vec<Field>, name: Seq<u8>, i: int) -> Option<int>
    decreases fields.len() - i,
{
    if i < 0 || i >= fields.len() {
        None
    } else if fields[i].name@ == name {
        Some(i)
    } else {
        field_index_from(fields, name, i + 1)
    }
}

/// Index of the first field bearing `name`.
pub open spec fn field_index(fields: Vec<Field>, name: Seq<u8>) -> Option<int> {
    field_index_from(fields, name, 0)
}

/// Index of the first field with the given name.
fn find_field(fields: &Vec<Field>, name: &Vec<u8>) -> (r: Option<usize>)
    ensures
        match r {
            Some(k) => k < fields@.len() && fields@[k as int].name@ == name@ && field_index(
                *fields,
                name@,
            ) == Some(k as int),
            None => (forall|j: int| 0 <= j < fields@.len() ==> fields@[j].name@ != name@)
                && field_index(*fields, name@) is None,
        },
{
    let mut i: usize = 0;
    while i < fields.len()
        invariant
            0 <= i <= fields@.len(),
            forall|j: int| 0 <= j < i ==> fields@[j].name@ != name@,
            field_index(*fields, name@) == field_index_from(*fields, name@, i as int),
        decreases fields@.len() - i,
    {
        if bytes_eq(&fields[i].name, name) {
            return Some(i);
        }
        i = i + 1;
    }
    None
}

/// Index of the first variant with the given name.
fn find_variant(defs: &Vec<VariantDef>, name: &Vec<u8>) -> (r: Option<usize>)
    ensures
        match r {
            Some(k) => k < defs@.len() && defs@[k as int].name@ == name@ && variant_index(
                *defs,
                name@,
            ) == Some(k as int),
            None => (forall|j: int| 0 <= j < defs@.len() ==> defs@[j].name@ != name@)
                && variant_index(*defs, name@) is None,
        },
{
    let mut i: usize = 0;
    while i < defs.len()
        invariant
            0 <= i <= defs@.len(),
            forall|j: int| 0 <= j < i ==> defs@[j].name@ != name@,
            variant_index(*defs, name@) == variant_index_from(*defs, name@, i as int),
        decreases defs@.len() - i,
    {
        if bytes_eq(&defs[i].name, name) {
            return Some(i);
        }
        i = i + 1;
    }
    None
}

/// Advance the tokenizer one token, with the progress facts the decoder's
/// loops need.
fn advance(it: &mut XmlIterator) -> (r: Result<Lexical, Error>)
    requires
        old(it).wf(),
        old(it).spec_kind() != TokenKind::EndOfFile,
    ensures
        final(it).wf(),
        final(it).spec_input() == old(it).spec_input(),
        r matches Ok(l) ==> {
            &&& lex_matches(l, final(it).spec_kind(), final(it).spec_buf())
            &&& old(it).spec_pos() <= final(it).spec_pos()
            &&& (final(it).spec_kind() != TokenKind::EndOfFile
                ==> old(it).spec_pos() < final(it).spec_pos())
            &&& (final(it).spec_kind() == TokenKind::EndOfFile
                ==> final(it).spec_pos() == final(it).spec_input().len())
        },
        match lex_step(
            old(it).spec_input(),
            old(it).spec_pos(),
            old(it).spec_state(),
            stash_for_step(old(it).spec_state(), old(it).spec_buf(), old(it).spec_stash()),
        ) {
            LexOutcome::Next { kind, buf, stash, end, st } => {
                &&& r matches Ok(l) && lex_matches(l, kind, buf)
                &&& final(it).spec_kind() == kind
                &&& final(it).spec_buf() == buf
                &&& final(it).spec_stash() == stash
                &&& final(it).spec_pos() == end
                &&& final(it).spec_state() == st
            },
            LexOutcome::Failed { err } => r is Err,
        },
{
    proof {
        lemma_lex_step_bounds(
            it.spec_input(),
            it.spec_pos(),
            it.spec_state(),
            stash_for_step(it.spec_state(), it.spec_buf(), it.spec_stash()),
        );
    }
    it.bump()
}

} // verus!

verus! {

/// A shape whose value is represented as repeated sibling elements: a
/// sequence, possibly wrapped in optionals.
pub open spec fn seq_like(sh: Shape) -> bool
    decreases sh,
{
    match sh {
        Shape::Sequence(_) => true,
        Shape::Optional(inner) => seq_like(*inner),
        _ => false,
    }
}

/// The exact value a text-only element decodes to: the text itself for a
/// scalar request, the text wrapped in presence for an optional one.
pub open spec fn scalar_text_result(v: Value, sh: Shape, t: Seq<u8>) -> bool {
    if sh == Shape::Scalar {
        v matches Value::Text(tv) && tv@ == t
    } else {
        v matches Value::Present(b) && (*b matches Value::Text(tv) && tv@ == t)
    }
}

/// One decoding step leaves the cursor strictly further on, or leaves it
/// in place with the token unchanged or exhausted.
pub open spec fn step_progress(a: XmlIterator, b: XmlIterator) -> bool {
    ||| a.spec_pos() < b.spec_pos()
    ||| (b.spec_pos() == a.spec_pos() && (b.spec_kind() == a.spec_kind() || b.spec_kind()
        == TokenKind::EndOfFile))
}

/// The synthetic key for inline text, as owned bytes.
fn make_value_key() -> (r: Vec<u8>)
    ensures
        r@ == value_key(),
{
    let mut r: Vec<u8> = Vec::new();
    r.push(0x24);
    r.push(0x76);
    r.push(0x61);
    r.push(0x6c);
    r.push(0x75);
    r.push(0x65);
    proof {
        assert(r@ =~= value_key());
    }
    r
}

/// The shape accepts an absent value: everything but a variant, which has
/// no default, directly or through a keyed field.
pub open spec fn has_absent(sh: Shape) -> bool
    decreases sh,
{
    match sh {
        Shape::Scalar => true,
        Shape::Optional(_) => true,
        Shape::Sequence(_) => true,
        Shape::Keyed(fields) => forall|k: int| 0 <= k < fields.len() ==> has_absent(
            (#[trigger] fields[k]).shape,
        ),
        Shape::Variant(_) => false,
    }
}

/// The specific value an absent field of the shape takes: unit for a
/// scalar, nothing for an optional, an empty list for a sequence, a record
/// of absent fields for a keyed shape.
pub open spec fn absent_value_ok(v: Value, sh: Shape) -> bool
    decreases sh,
{
    match sh {
        Shape::Scalar => v == Value::Unit,
        Shape::Optional(_) => v == Value::Nothing,
        Shape::Sequence(_) => v matches Value::List(items) && items.len() == 0,
        Shape::Keyed(fields) => v matches Value::Record(entries) && absent_entries_ok(
            entries,
            fields,
        ),
        Shape::Variant(_) => false,
    }
}

/// One absent-value entry per field, in declaration order.
pub open spec fn absent_entries_ok(entries: Vec<Entry>, fields: Vec<Field>) -> bool
    decreases fields,
{
    &&& entries.len() == fields.len()
    &&& forall|k: int| 0 <= k < fields.len() ==> (#[trigger] entries[k]).key@
        == fields[k].name@ && absent_value_ok(entries[k].value, fields[k].shape)
}

/// No two fields share a name.
pub open spec fn distinct_names(fields: Vec<Field>) -> bool {
    forall|i: int, j: int| 0 <= i < j < fields.len() ==> (#[trigger] fields[i]).name@ != (
    #[trigger] fields[j]).name@
}

/// A value of the shape for a field that never appeared: unit for a scalar,
/// nothing for an optional, an empty list for a sequence, a record of
/// absent fields for a keyed shape. A variant accepts no absent value.
fn fill_missing(shape: &Shape, name: &Vec<u8>) -> (r: Result<Value, Error>)
    ensures
        r matches Ok(v) ==> value_fits(v, *shape),
        has_absent(*shape) ==> (r matches Ok(v) && absent_value_ok(v, *shape)),
        !has_absent(*shape) ==> r is Err,
    decreases shape, 0int,
{
    match shape {
        Shape::Scalar => Ok(Value::Unit),
        Shape::Optional(_) => Ok(Value::Nothing),
        Shape::Sequence(_) => {
            let items: Vec<Value> = Vec::new();
            Ok(Value::List(items))
        },
        Shape::Keyed(fields) => {
            let entries = match fill_missing_list(fields) {
                Ok(es) => es,
                Err(e) => return Err(e),
            };
            Ok(Value::Record(entries))
        },
        Shape::Variant(_) => Err(Error::MissingField(own_bytes(name))),
    }
}

/// Absent values for every field of a keyed shape, in declaration order.
fn fill_missing_list(fields: &Vec<Field>) -> (r: Result<Vec<Entry>, Error>)
    ensures
        r matches Ok(entries) ==> entries_fit(entries, *fields),
        (forall|k: int| 0 <= k < fields@.len() ==> has_absent((#[trigger] fields@[k]).shape))
            ==> (r matches Ok(entries) && absent_entries_ok(entries, *fields)),
        !(forall|k: int| 0 <= k < fields@.len() ==> has_absent((#[trigger] fields@[k]).shape))
            ==> r is Err,
    decreases fields, 1int,
{
    let mut entries: Vec<Entry> = Vec::new();
    let mut k: usize = 0;
    while k < fields.len()
        invariant
            0 <= k <= fields@.len(),
            entries_fit(entries, *fields),
            entries@.len() == k,
            forall|j: int| 0 <= j < k ==> has_absent((#[trigger] fields@[j]).shape),
            forall|j: int| 0 <= j < k ==> (#[trigger] entries@[j]).key@ == fields@[j].name@
                && absent_value_ok(entries@[j].value, fields@[j].shape),
        decreases fields@.len() - k,
    {
        let v = match fill_missing(&fields[k].shape, &fields[k].name) {
            Ok(v) => v,
            Err(e) => return Err(e),
        };
        let key = own_bytes(&fields[k].name);
        entries.push(Entry { key, value: v });
        proof {
            assert(entries_fit(entries, *fields));
        }
        k = k + 1;
    }
    Ok(entries)
}

/// The next token step of a tokenizer value.
pub open spec fn it_step(x: XmlIterator) -> LexOutcome {
    lex_step(
        x.spec_input(),
        x.spec_pos(),
        x.spec_state(),
        stash_for_step(x.spec_state(), x.spec_buf(), x.spec_stash()),
    )
}

/// The tokenizer stands exactly at the state a `Next` outcome leaves.
pub open spec fn at_outcome(x: XmlIterator, input: Seq<u8>, o: LexOutcome) -> bool {
    o matches LexOutcome::Next { kind, buf, stash, end, st } && x.spec_input() == input
        && x.spec_kind() == kind && x.spec_buf() == buf && x.spec_stash() == stash
        && x.spec_pos() == end && x.spec_state() == st
}

/// Content iteration stands at an attribute whose requested field is a
/// scalar, with its value token next: `Some((name, value))`.
pub open spec fn first_attr_case(x: XmlIterator, fields: Vec<Field>) -> Option<(Seq<u8>, Seq<u8>)> {
    if x.spec_kind() == TokenKind::AttributeName {
        match field_index(fields, x.spec_buf()) {
            Some(k) => if fields[k].shape == Shape::Scalar {
                match it_step(x) {
                    LexOutcome::Next { kind: TokenKind::AttributeValue, buf: v, .. } => Some(
                        (x.spec_buf(), v),
                    ),
                    _ => None,
                }
            } else {
                None
            },
            None => None,
        }
    } else {
        None
    }
}

/// Content iteration stands at the tag close of an element whose content
/// is one text run, requested under the reserved text key as a scalar:
/// `Some(text)`.
pub open spec fn inline_text_case(x: XmlIterator, fields: Vec<Field>) -> Option<Seq<u8>> {
    if x.spec_kind() == TokenKind::StartTagClose {
        match it_step(x) {
            LexOutcome::Next { kind: TokenKind::Text, buf: t, .. } => match field_index(
                fields,
                value_key(),
            ) {
                Some(k) => if fields[k].shape == Shape::Scalar {
                    Some(t)
                } else {
                    None
                },
                None => None,
            },
            _ => None,
        }
    } else {
        None
    }
}

/// The token step after an element's inline text run: for a text-only
/// element this is its end tag, which content iteration must not consume.
pub open spec fn step_after_text(x: XmlIterator) -> LexOutcome {
    match it_step(x) {
        LexOutcome::Next { kind: _, buf: t, stash: st1, end: e1, st: s1 } => lex_step(
            x.spec_input(),
            e1,
            s1,
            stash_for_step(s1, t, st1),
        ),
        LexOutcome::Failed { err } => LexOutcome::Failed { err },
    }
}

/// Content iteration stands at a tag close whose first child element is a
/// requested sequence-of-scalars field: `Some((name, run))`, the field
/// name and the full run of its same-named text-only siblings.
pub open spec fn seq_field_case(x: XmlIterator, fields: Vec<Field>) -> Option<
    (Seq<u8>, (Seq<Seq<u8>>, LexOutcome)),
> {
    if x.spec_kind() == TokenKind::StartTagClose {
        match it_step(x) {
            LexOutcome::Next { kind: TokenKind::StartTagName, buf: n, stash: st1, end: e1, st: s1 } => match field_index(
                fields,
                n,
            ) {
                Some(k) => match fields[k].shape {
                    Shape::Sequence(inner) => if *inner == Shape::Scalar {
                        match lex_step(x.spec_input(), e1, s1, stash_for_step(s1, n, st1)) {
                            LexOutcome::Next { kind: TokenKind::StartTagClose, buf: b2, stash: st2, end: e2, st: s2 } => match scalar_run(
                                x.spec_input(),
                                e2,
                                s2,
                                b2,
                                st2,
                            ) {
                                Some(run) => Some((n, run)),
                                None => None,
                            },
                            _ => None,
                        }
                    } else {
                        None
                    },
                    _ => None,
                },
                None => None,
            },
            _ => None,
        }
    } else {
        None
    }
}

/// Content iteration stands at a tag close whose only content is a
/// whitespace text run, with no field requested under the reserved text
/// key: the run is skipped and iteration stops.
pub open spec fn ws_only_case(x: XmlIterator, fields: Vec<Field>) -> bool {
    x.spec_kind() == TokenKind::StartTagClose && match it_step(x) {
        LexOutcome::Next { kind: TokenKind::Text, buf: t, .. } => all_ws(t) && field_index(
            fields,
            value_key(),
        ) is None,
        _ => false,
    }
}

/// Exec state of keyed-content iteration: attributes first, then either
/// inline text or child elements.
enum ContentState {
    Attribute,
    Element,
    Value,
    Inner,
}

/// Rank for loop termination: states reached without consuming a token
/// rank higher.
spec fn content_state_rank(c: ContentState) -> int {
    match c {
        ContentState::Inner => 2,
        ContentState::Element => 1,
        ContentState::Value => 1,
        ContentState::Attribute => 0,
    }
}

spec fn eof_rank(k: TokenKind) -> int {
    if k == TokenKind::EndOfFile {
        0
    } else {
        1
    }
}

/// Keyed content: each attribute as a (name, value) pair, then inline text
/// under the reserved `$value` key, or each child element under its tag
/// name; requested fields that never appeared are filled with their absent
/// value. Unknown keys fail the decode.
#[verifier::rlimit(80)]
fn decode_content(it: &mut XmlIterator, fields: &Vec<Field>) -> (r: Result<Vec<Entry>, Error>)
    requires
        old(it).wf(),
    ensures
        final(it).wf(),
        final(it).spec_input() == old(it).spec_input(),
        r matches Ok(entries) ==> entries_fit(entries, *fields)
            && old(it).spec_pos() <= final(it).spec_pos()
            && step_progress(*old(it), *final(it)),
        old(it).spec_kind() == TokenKind::EmptyElementEnd ==> *final(it) == *old(it),
        old(it).spec_kind() == TokenKind::EmptyElementEnd && (forall|k: int| 0 <= k
            < fields@.len() ==> has_absent((#[trigger] fields@[k]).shape)) ==> r is Ok,
        old(it).spec_kind() == TokenKind::EmptyElementEnd && distinct_names(*fields) ==> (
        r matches Ok(entries) ==> absent_entries_ok(entries, *fields)),
        first_attr_case(*old(it), *fields) matches Some(p) ==> (r matches Ok(entries) ==> (
        entries@.len() >= 1 && entries@[0].key@ == p.0 && (entries@[0].value matches Value::Text(
            tv,
        ) && tv@ == p.1))),
        (old(it).spec_kind() == TokenKind::AttributeName && is_utf8(old(it).spec_buf())
            && field_index(*fields, old(it).spec_buf()) is None) ==> (r matches Err(e) && (
        e matches Error::UnknownField(m) && m@ == old(it).spec_buf())),
        inline_text_case(*old(it), *fields) matches Some(t) ==> (r matches Ok(entries) ==> (
        entries@.len() >= 1 && entries@[0].key@ == value_key() && (
        entries@[0].value matches Value::Text(tv) && tv@ == t))),
        inline_text_case(*old(it), *fields) is Some && (step_after_text(
            *old(it),
        ) matches LexOutcome::Next { kind: TokenKind::EndTagName, .. }) ==> (r is Ok
            ==> at_outcome(*final(it), old(it).spec_input(), step_after_text(*old(it)))),
        seq_field_case(*old(it), *fields) matches Some(p) ==> (r matches Ok(entries) ==> (
        entries@.len() >= 1 && entries@[0].key@ == p.0 && (
        entries@[0].value matches Value::List(items) && items@.len() == p.1.0.len() && (forall|
            k: int,
        | 0 <= k < items@.len() ==> ((#[trigger] items@[k]) matches Value::Text(tv) && tv@
            == p.1.0[k]))))),
        ws_only_case(*old(it), *fields) && distinct_names(*fields) ==> (r matches Ok(entries)
            ==> absent_entries_ok(entries, *fields)),
        ws_only_case(*old(it), *fields) ==> (r is Ok ==> at_outcome(
            *final(it),
            old(it).spec_input(),
            step_after_text(*old(it)),
        )),
    decreases fields, 1int,
{
    let mut entries: Vec<Entry> = Vec::new();
    let mut cstate = ContentState::Attribute;
    loop
        invariant_except_break
            ws_only_case(*old(it), *fields) ==> (entries@.len() == 0 && ((*it == *old(it) && (
            cstate matches ContentState::Attribute)) || (at_outcome(
                *it,
                old(it).spec_input(),
                it_step(*old(it)),
            ) && ((cstate matches ContentState::Inner) || (
            cstate matches ContentState::Value))))),
        invariant
            it.wf(),
            it.spec_input() == old(it).spec_input(),
            old(it).spec_pos() <= it.spec_pos(),
            step_progress(*old(it), *it),
            entries_fit(entries, *fields),
            old(it).spec_kind() == TokenKind::EmptyElementEnd ==> *it == *old(it)
                && (cstate matches ContentState::Attribute) && entries@.len() == 0,
            first_attr_case(*old(it), *fields) matches Some(p) ==> ((entries@.len() == 0 ==> *it
                == *old(it) && (cstate matches ContentState::Attribute)) && (entries@.len() >= 1
                ==> entries@[0].key@ == p.0 && (entries@[0].value matches Value::Text(tv) && tv@
                == p.1))),
            (old(it).spec_kind() == TokenKind::AttributeName && is_utf8(old(it).spec_buf())
                && field_index(*fields, old(it).spec_buf()) is None) ==> *it == *old(it) && (
            cstate matches ContentState::Attribute),
            seq_field_case(*old(it), *fields) matches Some(p) ==> ((entries@.len() == 0 ==> ((
            *it == *old(it) && (cstate matches ContentState::Attribute)) || (at_outcome(
                *it,
                old(it).spec_input(),
                it_step(*old(it)),
            ) && ((cstate matches ContentState::Inner) || (
            cstate matches ContentState::Element))))) && (entries@.len() >= 1 ==> (
            entries@[0].key@ == p.0 && (entries@[0].value matches Value::List(items)
                && items@.len() == p.1.0.len() && (forall|k: int| 0 <= k < items@.len() ==> ((
            #[trigger] items@[k]) matches Value::Text(tv) && tv@ == p.1.0[k])))))),
            inline_text_case(*old(it), *fields) matches Some(t) ==> ((entries@.len() == 0 ==> ((
            *it == *old(it) && (cstate matches ContentState::Attribute)) || (at_outcome(
                *it,
                old(it).spec_input(),
                it_step(*old(it)),
            ) && ((cstate matches ContentState::Inner) || (
            cstate matches ContentState::Value))))) && (entries@.len() >= 1 ==> entries@[0].key@
                == value_key() && (entries@[0].value matches Value::Text(tv) && tv@ == t) && ((
            step_after_text(
                *old(it),
            ) matches LexOutcome::Next { kind: TokenKind::EndTagName, .. }) ==> at_outcome(
                *it,
                old(it).spec_input(),
                step_after_text(*old(it)),
            )))),
        ensures
            it.wf(),
            it.spec_input() == old(it).spec_input(),
            old(it).spec_pos() <= it.spec_pos(),
            step_progress(*old(it), *it),
            entries_fit(entries, *fields),
            old(it).spec_kind() == TokenKind::EmptyElementEnd ==> *it == *old(it)
                && entries@.len() == 0,
            first_attr_case(*old(it), *fields) matches Some(p) ==> (entries@.len() >= 1
                && entries@[0].key@ == p.0 && (entries@[0].value matches Value::Text(tv) && tv@
                == p.1)),
            !(old(it).spec_kind() == TokenKind::AttributeName && is_utf8(old(it).spec_buf())
                && field_index(*fields, old(it).spec_buf()) is None),
            inline_text_case(*old(it), *fields) matches Some(t) ==> (entries@.len() >= 1
                && entries@[0].key@ == value_key() && (entries@[0].value matches Value::Text(tv)
                && tv@ == t)),
            inline_text_case(*old(it), *fields) is Some && (step_after_text(
                *old(it),
            ) matches LexOutcome::Next { kind: TokenKind::EndTagName, .. }) ==> at_outcome(
                *it,
                old(it).spec_input(),
                step_after_text(*old(it)),
            ),
            seq_field_case(*old(it), *fields) matches Some(p) ==> (entries@.len() >= 1
                && entries@[0].key@ == p.0 && (entries@[0].value matches Value::List(items)
                && items@.len() == p.1.0.len() && (forall|k: int| 0 <= k < items@.len() ==> ((
            #[trigger] items@[k]) matches Value::Text(tv) && tv@ == p.1.0[k])))),
            ws_only_case(*old(it), *fields) ==> (entries@.len() == 0 && at_outcome(
                *it,
                old(it).spec_input(),
                step_after_text(*old(it)),
            )),
        decreases
            it.spec_input().len() - it.spec_pos(),
            eof_rank(it.spec_kind()),
            content_state_rank(cstate),
    {
        match cstate {
            ContentState::Attribute => {
                match it.kind() {
                    TokenKind::EmptyElementEnd => break,
                    TokenKind::StartTagClose => {
                        match advance(it) {
                            Ok(_) => {},
                            Err(e) => return Err(e),
                        }
                        cstate = ContentState::Inner;
                    },
                    TokenKind::AttributeName => {
                        let name = match it.ch() {
                            Ok(Lexical::AttributeName(n)) => n,
                            _ => return Err(it.expected(Expectation::AttributeName)),
                        };
                        match it.from_utf8(&name) {
                            Ok(()) => {},
                            Err(e) => return Err(e),
                        }
                        let idx = match find_field(fields, &name) {
                            Some(k) => k,
                            None => return Err(Error::UnknownField(name)),
                        };
                        let vbytes = match advance(it) {
                            Ok(Lexical::AttributeValue(v)) => v,
                            Ok(_) => return Err(it.expected(Expectation::AttributeValue)),
                            Err(e) => return Err(e),
                        };
                        match it.from_utf8(&vbytes) {
                            Ok(()) => {},
                            Err(e) => return Err(e),
                        }
                        match fields[idx].shape {
                            Shape::Scalar => {},
                            _ => return Err(it.expected(Expectation::Text)),
                        }
                        match advance(it) {
                            Ok(_) => {},
                            Err(e) => return Err(e),
                        }
                        entries.push(Entry { key: name, value: Value::Text(vbytes) });
                        proof {
                            assert(entries_fit(entries, *fields));
                        }
                    },
                    _ => return Err(it.expected(Expectation::AttributeName)),
                }
            },
            ContentState::Element => {
                match it.kind() {
                    TokenKind::StartTagName => {
                        let name = match it.ch() {
                            Ok(Lexical::StartTagName(n)) => n,
                            _ => return Err(it.expected(Expectation::StartTagName)),
                        };
                        match it.from_utf8(&name) {
                            Ok(()) => {},
                            Err(e) => return Err(e),
                        }
                        let idx = match find_field(fields, &name) {
                            Some(k) => k,
                            None => return Err(Error::UnknownField(name)),
                        };
                        match advance(it) {
                            Ok(_) => {},
                            Err(e) => return Err(e),
                        }
                        let (v, is_seq) = match decode_inner(it, &fields[idx].shape) {
                            Ok(p) => p,
                            Err(e) => return Err(e),
                        };
                        if !is_seq {
                            match it.kind() {
                                TokenKind::EmptyElementEnd | TokenKind::EndTagName => {},
                                _ => return Err(it.expected(Expectation::EndTag)),
                            }
                            match advance(it) {
                                Ok(_) => {},
                                Err(e) => return Err(e),
                            }
                        }
                        entries.push(Entry { key: name, value: v });
                        proof {
                            assert(entries_fit(entries, *fields));
                        }
                    },
                    TokenKind::EmptyElementEnd => {
                        // an empty child consumed as content closes here
                        match advance(it) {
                            Ok(_) => {},
                            Err(e) => return Err(e),
                        }
                    },
                    TokenKind::Text => {
                        if bytes_are_ws(it.token_bytes()) {
                            match advance(it) {
                                Ok(_) => {},
                                Err(e) => return Err(e),
                            }
                        } else {
                            return Err(it.expected(Expectation::Content));
                        }
                    },
                    TokenKind::EndTagName => break,
                    _ => return Err(it.expected(Expectation::Content)),
                }
            },
            ContentState::Inner => {
                match it.kind() {
                    TokenKind::Text => {
                        cstate = ContentState::Value;
                    },
                    _ => {
                        cstate = ContentState::Element;
                    },
                }
            },
            ContentState::Value => {
                match it.kind() {
                    TokenKind::EndTagName => break,
                    TokenKind::Text => {
                        let ws = bytes_are_ws(it.token_bytes());
                        let vkey = make_value_key();
                        match find_field(fields, &vkey) {
                            None => {
                                if ws {
                                    // ws-only inline text of a target with no
                                    // text field: skip it and stop
                                    match advance(it) {
                                        Ok(_) => {},
                                        Err(e) => return Err(e),
                                    }
                                    break;
                                } else {
                                    return Err(Error::UnknownField(vkey));
                                }
                            },
                            Some(idx) => {
                                let t = match it.ch() {
                                    Ok(Lexical::Text(t)) => t,
                                    _ => return Err(it.expected(Expectation::Text)),
                                };
                                match it.from_utf8(&t) {
                                    Ok(()) => {},
                                    Err(e) => return Err(e),
                                }
                                match fields[idx].shape {
                                    Shape::Scalar => {},
                                    _ => return Err(it.expected(Expectation::Text)),
                                }
                                match advance(it) {
                                    Ok(_) => {},
                                    Err(e) => return Err(e),
                                }
                                entries.push(Entry { key: vkey, value: Value::Text(t) });
                                proof {
                                    assert(entries_fit(entries, *fields));
                                }
                            },
                        }
                    },
                    _ => return Err(it.expected(Expectation::Content)),
                }
            },
        }
    }
    let mut k: usize = 0;
    while k < fields.len()
        invariant
            it.wf(),
            it.spec_input() == old(it).spec_input(),
            old(it).spec_pos() <= it.spec_pos(),
            step_progress(*old(it), *it),
            old(it).spec_kind() == TokenKind::EmptyElementEnd ==> *it == *old(it),
            0 <= k <= fields@.len(),
            entries_fit(entries, *fields),
            old(it).spec_kind() == TokenKind::EmptyElementEnd && distinct_names(*fields) ==> (
            entries@.len() == k && (forall|j: int| 0 <= j < k ==> (#[trigger] entries@[j]).key@
                == fields@[j].name@ && absent_value_ok(entries@[j].value, fields@[j].shape))),
            first_attr_case(*old(it), *fields) matches Some(p) ==> (entries@.len() >= 1
                && entries@[0].key@ == p.0 && (entries@[0].value matches Value::Text(tv) && tv@
                == p.1)),
            !(old(it).spec_kind() == TokenKind::AttributeName && is_utf8(old(it).spec_buf())
                && field_index(*fields, old(it).spec_buf()) is None),
            inline_text_case(*old(it), *fields) matches Some(t) ==> (entries@.len() >= 1
                && entries@[0].key@ == value_key() && (entries@[0].value matches Value::Text(tv)
                && tv@ == t)),
            inline_text_case(*old(it), *fields) is Some && (step_after_text(
                *old(it),
            ) matches LexOutcome::Next { kind: TokenKind::EndTagName, .. }) ==> at_outcome(
                *it,
                old(it).spec_input(),
                step_after_text(*old(it)),
            ),
            seq_field_case(*old(it), *fields) matches Some(p) ==> (entries@.len() >= 1
                && entries@[0].key@ == p.0 && (entries@[0].value matches Value::List(items)
                && items@.len() == p.1.0.len() && (forall|k: int| 0 <= k < items@.len() ==> ((
            #[trigger] items@[k]) matches Value::Text(tv) && tv@ == p.1.0[k])))),
            ws_only_case(*old(it), *fields) ==> at_outcome(
                *it,
                old(it).spec_input(),
                step_after_text(*old(it)),
            ),
            ws_only_case(*old(it), *fields) && distinct_names(*fields) ==> (entries@.len() == k
                && (forall|j: int| 0 <= j < k ==> (#[trigger] entries@[j]).key@
                == fields@[j].name@ && absent_value_ok(entries@[j].value, fields@[j].shape))),
        decreases fields@.len() - k,
    {
        let mut present = false;
        let mut j: usize = 0;
        while j < entries.len()
            invariant
                0 <= j <= entries@.len(),
                k < fields@.len(),
                present ==> exists|m: int| 0 <= m < entries@.len()
                    && (#[trigger] entries@[m]).key@ == fields@[k as int].name@,
                old(it).spec_kind() == TokenKind::EmptyElementEnd && distinct_names(*fields)
                    ==> (entries@.len() == k && !present && (forall|m: int| 0 <= m < k ==> (
                #[trigger] entries@[m]).key@ == fields@[m].name@)),
            decreases entries@.len() - j,
        {
            if bytes_eq(&entries[j].key, &fields[k].name) {
                present = true;
            }
            j = j + 1;
        }
        if !present {
            let v = match fill_missing(&fields[k].shape, &fields[k].name) {
                Ok(v) => v,
                Err(e) => return Err(e),
            };
            let key = own_bytes(&fields[k].name);
            entries.push(Entry { key, value: v });
            proof {
                assert(entries_fit(entries, *fields));
            }
        }
        k = k + 1;
    }
    Ok(entries)
}

/// The full run of same-named text-only sibling elements, starting at the
/// first element's tag close, given by the lexer state's components.
/// `Some((texts, boundary))` when every sibling is a text-only element in
/// valid UTF-8 and the run ends properly: `texts` are the siblings' texts
/// in document order, and `boundary` is the token step the run leaves the
/// stream at, either a differently named start tag, left unconsumed for
/// the enclosing decoder, or the parent's end tag.
pub open spec fn scalar_run(
    s: Seq<u8>,
    i: int,
    st: LexerState,
    buf: Seq<u8>,
    stash: Seq<u8>,
) -> Option<(Seq<Seq<u8>>, LexOutcome)>
    decreases s.len() - i,
{
    match lex_step(s, i, st, stash_for_step(st, buf, stash)) {
        LexOutcome::Next { kind: TokenKind::Text, buf: t, stash: st1, end: e1, st: s1 } => if !is_utf8(
            t,
        ) {
            None
        } else {
            match lex_step(s, e1, s1, stash_for_step(s1, t, st1)) {
                LexOutcome::Next { kind: TokenKind::EndTagName, buf: n, stash: st2, end: e2, st: s2 } => match lex_step(
                    s,
                    e2,
                    s2,
                    stash_for_step(s2, st2, n),
                ) {
                    LexOutcome::Next { kind: TokenKind::StartTagName, buf: m, stash: st3, end: e3, st: s3 } => if m
                        != n {
                        Some(
                            (
                                seq![t],
                                lex_step(s, e2, s2, stash_for_step(s2, st2, n)),
                            ),
                        )
                    } else {
                        match lex_step(s, e3, s3, stash_for_step(s3, m, st3)) {
                            LexOutcome::Next { kind: TokenKind::StartTagClose, buf: b4, stash: st4, end: e4, st: s4 } => if i
                                < e4 && e4 <= s.len() {
                                match scalar_run(s, e4, s4, b4, st4) {
                                    Some((ts, fin)) => Some((seq![t] + ts, fin)),
                                    None => None,
                                }
                            } else {
                                None
                            },
                            _ => None,
                        }
                    },
                    LexOutcome::Next { kind: TokenKind::Text, buf: w, stash: st3, end: e3, st: s3 } => if all_ws(
                        w,
                    ) {
                        match lex_step(s, e3, s3, stash_for_step(s3, w, st3)) {
                            LexOutcome::Next { kind: TokenKind::EndTagName, .. } => Some(
                                (
                                    seq![t],
                                    lex_step(s, e3, s3, stash_for_step(s3, w, st3)),
                                ),
                            ),
                            _ => None,
                        }
                    } else {
                        None
                    },
                    _ => None,
                },
                _ => None,
            }
        },
        _ => None,
    }
}

/// One sequence: sibling elements of one tag name, decoded in order. The
/// stash holds the previous sibling's name; a differently named start tag
/// ends the sequence and is left for the parent.
#[verifier::rlimit(60)]
fn decode_seq(it: &mut XmlIterator, inner: &Shape) -> (r: Result<Vec<Value>, Error>)
    requires
        old(it).wf(),
    ensures
        final(it).wf(),
        final(it).spec_input() == old(it).spec_input(),
        r matches Ok(items) ==> (forall|k: int| 0 <= k < items.len()
            ==> value_fits(#[trigger] items[k], *inner))
            && old(it).spec_pos() <= final(it).spec_pos()
            && step_progress(*old(it), *final(it)),
        (*inner == Shape::Scalar && old(it).spec_kind() == TokenKind::StartTagClose) ==> (
        scalar_run(
            old(it).spec_input(),
            old(it).spec_pos(),
            old(it).spec_state(),
            old(it).spec_buf(),
            old(it).spec_stash(),
        ) matches Some(run) ==> ({
            &&& r matches Ok(items) && items@.len() == run.0.len() && (forall|k: int| 0 <= k
                < items@.len() ==> ((#[trigger] items@[k]) matches Value::Text(tv) && tv@
                == run.0[k]))
            &&& at_outcome(*final(it), old(it).spec_input(), run.1)
        })),
            decreases inner, 1int,
{
    let mut items: Vec<Value> = Vec::new();
    proof {
        let h = scalar_run(
            old(it).spec_input(),
            old(it).spec_pos(),
            old(it).spec_state(),
            old(it).spec_buf(),
            old(it).spec_stash(),
        );
        if h is Some {
            assert(h.unwrap().0.skip(0) =~= h.unwrap().0);
        }
    }
    loop
        invariant_except_break
            (*inner == Shape::Scalar && old(it).spec_kind() == TokenKind::StartTagClose) ==> (
            scalar_run(
                old(it).spec_input(),
                old(it).spec_pos(),
                old(it).spec_state(),
                old(it).spec_buf(),
                old(it).spec_stash(),
            ) matches Some(run) ==> ({
                &&& it.spec_kind() == TokenKind::StartTagClose
                &&& scalar_run(
                    it.spec_input(),
                    it.spec_pos(),
                    it.spec_state(),
                    it.spec_buf(),
                    it.spec_stash(),
                ) matches Some(rest) && ({
                    &&& rest.1 == run.1
                    &&& items@.len() + rest.0.len() == run.0.len()
                    &&& rest.0 == run.0.skip(items@.len() as int)
                    &&& forall|k: int| 0 <= k < items@.len() ==> ((
                    #[trigger] items@[k]) matches Value::Text(tv) && tv@ == run.0[k])
                })
            })),
                    invariant
            it.wf(),
            it.spec_input() == old(it).spec_input(),
            old(it).spec_pos() <= it.spec_pos(),
            step_progress(*old(it), *it),
            forall|k: int| 0 <= k < items.len() ==> value_fits(#[trigger] items[k], *inner),
        ensures
            it.wf(),
            it.spec_input() == old(it).spec_input(),
            old(it).spec_pos() <= it.spec_pos(),
            step_progress(*old(it), *it),
            forall|k: int| 0 <= k < items.len() ==> value_fits(#[trigger] items[k], *inner),
            (*inner == Shape::Scalar && old(it).spec_kind() == TokenKind::StartTagClose) ==> (
            scalar_run(
                old(it).spec_input(),
                old(it).spec_pos(),
                old(it).spec_state(),
                old(it).spec_buf(),
                old(it).spec_stash(),
            ) matches Some(run) ==> ({
                &&& items@.len() == run.0.len()
                &&& forall|k: int| 0 <= k < items@.len() ==> ((
                #[trigger] items@[k]) matches Value::Text(tv) && tv@ == run.0[k])
                &&& at_outcome(*it, old(it).spec_input(), run.1)
            })),
                    decreases it.spec_input().len() - it.spec_pos(),
    {
        let ghost pre = *it;
        let ghost items0 = items@;
        let ghost hyp = *inner == Shape::Scalar && old(it).spec_kind()
            == TokenKind::StartTagClose && scalar_run(
            old(it).spec_input(),
            old(it).spec_pos(),
            old(it).spec_state(),
            old(it).spec_buf(),
            old(it).spec_stash(),
        ) is Some;
        let ghost run = scalar_run(
            old(it).spec_input(),
            old(it).spec_pos(),
            old(it).spec_state(),
            old(it).spec_buf(),
            old(it).spec_stash(),
        ).unwrap();
        let ghost rest = scalar_run(
            pre.spec_input(),
            pre.spec_pos(),
            pre.spec_state(),
            pre.spec_buf(),
            pre.spec_stash(),
        ).unwrap();
        let (v, is_seq) = match decode_inner(it, inner) {
            Ok(p) => p,
            Err(e) => return Err(e),
        };
        if is_seq {
            return Err(it.error(ErrorCode::XmlDoesntSupportSeqofSeq));
        }
        match it.kind() {
            TokenKind::EndTagName | TokenKind::EmptyElementEnd => {},
            _ => return Err(it.expected(Expectation::EndTag)),
        }
        it.stash();
        match advance(it) {
            Ok(_) => {},
            Err(e) => return Err(e),
        }
        items.push(v);
        proof {
            if hyp {
                assert(items@[items0.len() as int] == v);
                assert(rest.0[0] == run.0[items0.len() as int]);
            }
        }
        match it.kind() {
            TokenKind::StartTagName => {
                if bytes_eq(it.token_bytes(), it.stash_view()) {
                    match advance(it) {
                        Ok(_) => {},
                        Err(e) => return Err(e),
                    }
                    if it.kind() == TokenKind::EndOfFile {
                        return Err(it.expected(Expectation::StartTagClose));
                    }
                    proof {
                        if hyp {
                            assert(rest.0.len() >= 1);
                            assert(run.0.skip(items0.len() as int).skip(1) =~= run.0.skip(
                                items0.len() as int + 1,
                            ));
                            assert(scalar_run(
                                it.spec_input(),
                                it.spec_pos(),
                                it.spec_state(),
                                it.spec_buf(),
                                it.spec_stash(),
                            ).unwrap().0 =~= run.0.skip(items@.len() as int));
                        }
                    }
                } else {
                    // the differing tag belongs to the parent's next field
                    proof {
                        if hyp {
                            assert(rest.0 =~= seq![rest.0[0]]);
                            assert(items@.len() == run.0.len());
                        }
                    }
                    break;
                }
            },
            TokenKind::Text => {
                if bytes_are_ws(it.token_bytes()) {
                    match advance(it) {
                        Ok(_) => {},
                        Err(e) => return Err(e),
                    }
                    match it.kind() {
                        TokenKind::EndTagName => {
                            proof {
                                if hyp {
                                    assert(rest.0 =~= seq![rest.0[0]]);
                                    assert(items@.len() == run.0.len());
                                }
                            }
                            break;
                        },
                        _ => return Err(it.expected(Expectation::EndTag)),
                    }
                } else {
                    return Err(it.expected(Expectation::EndTag));
                }
            },
            _ => return Err(it.expected(Expectation::EndTag)),
        }
    }
    Ok(items)
}

/// A tagged variant: selected by the `xsi:type` attribute, with a unit,
/// inline, or structured payload as its definition demands.
fn decode_variant(it: &mut XmlIterator, defs: &Vec<VariantDef>) -> (r: Result<Value, Error>)
    requires
        old(it).wf(),
    ensures
        final(it).wf(),
        final(it).spec_input() == old(it).spec_input(),
        r matches Ok(v) ==> value_fits(v, Shape::Variant(*defs))
            && old(it).spec_pos() <= final(it).spec_pos()
            && step_progress(*old(it), *final(it)),
        old(it).spec_kind() != TokenKind::AttributeName ==> r == Err::<Value, Error>(
            Error::SyntaxError(
                ErrorCode::Expected(Expectation::AttributeName),
                old(it).spec_line() as usize,
                old(it).spec_col() as usize,
            ),
        ) && *final(it) == *old(it),
        (old(it).spec_kind() == TokenKind::AttributeName && old(it).spec_buf()
            != type_attr_name()) ==> r == Err::<Value, Error>(
            Error::SyntaxError(
                ErrorCode::Expected(Expectation::TypeAttribute),
                old(it).spec_line() as usize,
                old(it).spec_col() as usize,
            ),
        ) && *final(it) == *old(it),
        (old(it).spec_kind() == TokenKind::AttributeName && old(it).spec_buf()
            == type_attr_name()) ==> (match lex_step(
            old(it).spec_input(),
            old(it).spec_pos(),
            old(it).spec_state(),
            stash_for_step(old(it).spec_state(), old(it).spec_buf(), old(it).spec_stash()),
        ) {
            LexOutcome::Next { kind: TokenKind::AttributeValue, buf: vn, .. } => is_utf8(vn) ==> {
                &&& (r matches Ok(v) ==> v matches Value::Variant(nm, _) && nm@ == vn)
                &&& (variant_index(*defs, vn) is None ==> (r matches Err(e) && (
                e matches Error::UnknownField(n) && n@ == vn)))
            },
            _ => true,
        }),
        (old(it).spec_kind() == TokenKind::AttributeName && old(it).spec_buf()
            == type_attr_name()) ==> ({
            let step1 = lex_step(
                old(it).spec_input(),
                old(it).spec_pos(),
                old(it).spec_state(),
                stash_for_step(old(it).spec_state(), old(it).spec_buf(), old(it).spec_stash()),
            );
            match step1 {
                LexOutcome::Next { kind: TokenKind::AttributeValue, buf: vn, stash: st1, end: e1, st: s1 } => (
                is_utf8(vn) ==> match variant_index(*defs, vn) {
                    Some(k) => {
                        &&& ((*defs)[k].payload is Unit ==> match lex_step(
                            old(it).spec_input(),
                            e1,
                            s1,
                            stash_for_step(s1, vn, st1),
                        ) {
                            LexOutcome::Next { kind: TokenKind::EmptyElementEnd, buf: b2, stash: st2, end: e2, st: s2 } => {
                                &&& r matches Ok(v) && (v matches Value::Variant(nm, pl) && nm@
                                    == vn && *pl == Value::Unit)
                                &&& final(it).spec_kind() == TokenKind::EmptyElementEnd
                                &&& final(it).spec_buf() == b2
                                &&& final(it).spec_stash() == st2
                                &&& final(it).spec_pos() == e2
                                &&& final(it).spec_state() == s2
                            },
                            _ => true,
                        })
                        &&& ((*defs)[k].payload is Inline ==> match lex_step(
                            old(it).spec_input(),
                            e1,
                            s1,
                            stash_for_step(s1, vn, st1),
                        ) {
                            LexOutcome::Next { kind: TokenKind::StartTagClose, buf: b2, stash: st2, end: e2, st: s2 } => match lex_step(
                                old(it).spec_input(),
                                e2,
                                s2,
                                stash_for_step(s2, b2, st2),
                            ) {
                                LexOutcome::Next { kind: TokenKind::Text, buf: t, stash: st3, end: e3, st: s3 } => is_utf8(
                                    t,
                                ) ==> match lex_step(
                                    old(it).spec_input(),
                                    e3,
                                    s3,
                                    stash_for_step(s3, t, st3),
                                ) {
                                    LexOutcome::Next { kind: TokenKind::EndTagName, buf: b4, stash: st4, end: e4, st: s4 } => {
                                        &&& r matches Ok(v) && (v matches Value::Variant(nm, pl)
                                            && nm@ == vn && (*pl matches Value::Text(tv) && tv@
                                            == t))
                                        &&& final(it).spec_kind() == TokenKind::EndTagName
                                        &&& final(it).spec_buf() == b4
                                        &&& final(it).spec_stash() == st4
                                        &&& final(it).spec_pos() == e4
                                        &&& final(it).spec_state() == s4
                                    },
                                    _ => true,
                                },
                                _ => true,
                            },
                            _ => true,
                        })
                    },
                    None => true,
                }),
                _ => true,
            }
        }),
    decreases defs, 1int,
{
    match it.kind() {
        TokenKind::AttributeName => {},
        _ => return Err(it.expected(Expectation::AttributeName)),
    }
    if !is_type_attr(it.token_bytes()) {
        return Err(it.expected(Expectation::TypeAttribute));
    }
    let vname = match advance(it) {
        Ok(Lexical::AttributeValue(v)) => v,
        Ok(_) => return Err(it.expected(Expectation::AttributeValue)),
        Err(e) => return Err(e),
    };
    match it.from_utf8(&vname) {
        Ok(()) => {},
        Err(e) => return Err(e),
    }
    let k = match find_variant(defs, &vname) {
        Some(k) => k,
        None => return Err(Error::UnknownField(vname)),
    };
    match &defs[k].payload {
        VariantPayload::Unit => {
            match advance(it) {
                Ok(_) => {},
                Err(e) => return Err(e),
            }
            match it.kind() {
                TokenKind::EmptyElementEnd => {},
                _ => return Err(it.expected(Expectation::EmptyElementEnd)),
            }
            let r = Value::Variant(vname, Box::new(Value::Unit));
            proof {
                let kk = k as int;
                assert((*defs)[kk].name@ == vname@);
                assert(payload_fits(Value::Unit, (*defs)[kk].payload));
                assert(value_fits(r, Shape::Variant(*defs)));
            }
            Ok(r)
        },
        VariantPayload::Inline => {
            match advance(it) {
                Ok(_) => {},
                Err(e) => return Err(e),
            }
            match it.kind() {
                TokenKind::StartTagClose => {},
                _ => return Err(it.expected(Expectation::StartTagClose)),
            }
            let t = match advance(it) {
                Ok(Lexical::Text(t)) => t,
                Ok(_) => return Err(it.expected(Expectation::Content)),
                Err(e) => return Err(e),
            };
            match it.from_utf8(&t) {
                Ok(()) => {},
                Err(e) => return Err(e),
            }
            match advance(it) {
                Ok(_) => {},
                Err(e) => return Err(e),
            }
            match it.kind() {
                TokenKind::EndTagName => {},
                _ => return Err(it.expected(Expectation::EndTag)),
            }
            let r = Value::Variant(vname, Box::new(Value::Text(t)));
            proof {
                let kk = k as int;
                assert((*defs)[kk].name@ == vname@);
                assert(payload_fits(Value::Text(t), (*defs)[kk].payload));
                assert(value_fits(r, Shape::Variant(*defs)));
            }
            Ok(r)
        },
        VariantPayload::Structured(fields) => {
            proof {
                assert(decreases_to!(*defs => (*defs)[k as int]));
                assert(decreases_to!((*defs)[k as int] => (*defs)[k as int].payload));
            }
            match advance(it) {
                Ok(_) => {},
                Err(e) => return Err(e),
            }
            match it.kind() {
                TokenKind::StartTagClose => {},
                _ => return Err(it.expected(Expectation::StartTagClose)),
            }
            let entries = match decode_content(it, fields) {
                Ok(es) => es,
                Err(e) => return Err(e),
            };
            let r = Value::Variant(vname, Box::new(Value::Record(entries)));
            proof {
                let kk = k as int;
                assert((*defs)[kk].name@ == vname@);
                assert(payload_fits(Value::Record(entries), (*defs)[kk].payload));
                assert(value_fits(r, Shape::Variant(*defs)));
            }
            Ok(r)
        },
    }
}

/// A nested value at a start tag's close: the requested shape picks the
/// grammar, as the dispatch table of the structural decoder states.
fn decode_inner(it: &mut XmlIterator, shape: &Shape) -> (r: Result<(Value, bool), Error>)
    requires
        old(it).wf(),
    ensures
        final(it).wf(),
        final(it).spec_input() == old(it).spec_input(),
        r matches Ok((v, is_seq)) ==> {
            &&& value_fits(v, *shape)
            &&& (is_seq ==> seq_like(*shape))
            &&& old(it).spec_pos() <= final(it).spec_pos()
            &&& step_progress(*old(it), *final(it))
        },
        old(it).spec_kind() == TokenKind::EmptyElementEnd && *shape == Shape::Scalar
            ==> r == Ok::<(Value, bool), Error>((Value::Unit, false)) && *final(it) == *old(it),
        old(it).spec_kind() == TokenKind::EmptyElementEnd && (*shape matches Shape::Optional(_))
            ==> r == Ok::<(Value, bool), Error>((Value::Nothing, false)) && *final(it) == *old(it),
        (*shape matches Shape::Sequence(inner2) && *inner2 == Shape::Scalar && old(
            it,
        ).spec_kind() == TokenKind::StartTagClose) ==> (scalar_run(
            old(it).spec_input(),
            old(it).spec_pos(),
            old(it).spec_state(),
            old(it).spec_buf(),
            old(it).spec_stash(),
        ) matches Some(run) ==> ({
            &&& r matches Ok((v, f)) && (v matches Value::List(items) && items@.len()
                == run.0.len() && (forall|k: int| 0 <= k < items@.len() ==> ((
            #[trigger] items@[k]) matches Value::Text(tv) && tv@ == run.0[k]))) && f == true
            &&& at_outcome(*final(it), old(it).spec_input(), run.1)
        })),
        *shape matches Shape::Keyed(fields) ==> ({
            &&& (old(it).spec_kind() == TokenKind::EmptyElementEnd && distinct_names(fields)
                ==> (r matches Ok((v, f)) ==> (v matches Value::Record(entries)
                && absent_entries_ok(entries, fields))))
            &&& (first_attr_case(*old(it), fields) matches Some(p) ==> (r matches Ok((v, f))
                ==> (v matches Value::Record(entries) && entries@.len() >= 1
                && entries@[0].key@ == p.0 && (entries@[0].value matches Value::Text(tv) && tv@
                == p.1))))
            &&& (inline_text_case(*old(it), fields) matches Some(t) ==> (r matches Ok((v, f))
                ==> (v matches Value::Record(entries) && entries@.len() >= 1
                && entries@[0].key@ == value_key() && (entries@[0].value matches Value::Text(tv)
                && tv@ == t))))
            &&& (seq_field_case(*old(it), fields) matches Some(p) ==> (r matches Ok((v, f))
                ==> (v matches Value::Record(entries) && entries@.len() >= 1
                && entries@[0].key@ == p.0 && (entries@[0].value matches Value::List(items)
                && items@.len() == p.1.0.len() && (forall|k: int| 0 <= k < items@.len() ==> ((
            #[trigger] items@[k]) matches Value::Text(tv) && tv@ == p.1.0[k]))))))
        }),
        ((*shape == Shape::Scalar || (*shape matches Shape::Optional(inner) && *inner
            == Shape::Scalar)) && old(it).spec_kind() == TokenKind::StartTagClose) ==> ({
            let step1 = lex_step(
                old(it).spec_input(),
                old(it).spec_pos(),
                old(it).spec_state(),
                stash_for_step(old(it).spec_state(), old(it).spec_buf(), old(it).spec_stash()),
            );
            match step1 {
                LexOutcome::Next { kind: TokenKind::Text, buf, stash, end, st } => {
                    is_utf8(buf) ==> match lex_step(
                        old(it).spec_input(),
                        end,
                        st,
                        stash_for_step(st, buf, stash),
                    ) {
                        LexOutcome::Next { kind: k2, buf: b2, stash: st2, end: e2, st: s2 } => {
                            &&& r matches Ok((v, f)) && scalar_text_result(v, *shape, buf)
                                && f == false
                            &&& final(it).spec_kind() == k2
                            &&& final(it).spec_buf() == b2
                            &&& final(it).spec_stash() == st2
                            &&& final(it).spec_pos() == e2
                            &&& final(it).spec_state() == s2
                        },
                        LexOutcome::Failed { .. } => true,
                    }
                },
                _ => true,
            }
        }),
    decreases shape, 0int,
{
    match shape {
        Shape::Scalar => {
            match it.kind() {
                TokenKind::StartTagClose => {
                    let t = match advance(it) {
                        Ok(Lexical::Text(t)) => t,
                        Ok(_) => return Err(it.expected(Expectation::Text)),
                        Err(e) => return Err(e),
                    };
                    match it.from_utf8(&t) {
                        Ok(()) => {},
                        Err(e) => return Err(e),
                    }
                    match advance(it) {
                        Ok(_) => {},
                        Err(e) => return Err(e),
                    }
                    Ok((Value::Text(t), false))
                },
                TokenKind::EmptyElementEnd => Ok((Value::Unit, false)),
                _ => Err(it.expected(Expectation::StartTagClose)),
            }
        },
        Shape::Optional(inner) => {
            match it.kind() {
                TokenKind::StartTagClose => {
                    let (v, is_seq) = match decode_inner(it, inner) {
                        Ok(p) => p,
                        Err(e) => return Err(e),
                    };
                    Ok((Value::Present(Box::new(v)), is_seq))
                },
                TokenKind::EmptyElementEnd => Ok((Value::Nothing, false)),
                _ => Err(it.expected(Expectation::StartTagClose)),
            }
        },
        Shape::Sequence(inner) => {
            if it.kind() == TokenKind::EmptyElementEnd {
                let items: Vec<Value> = Vec::new();
                Ok((Value::List(items), true))
            } else {
                let items = match decode_seq(it, inner) {
                    Ok(items) => items,
                    Err(e) => return Err(e),
                };
                Ok((Value::List(items), true))
            }
        },
        Shape::Keyed(fields) => {
            let entries = match decode_content(it, fields) {
                Ok(es) => es,
                Err(e) => return Err(e),
            };
            Ok((Value::Record(entries), false))
        },
        Shape::Variant(defs) => {
            let v = match decode_variant(it, defs) {
                Ok(v) => v,
                Err(e) => return Err(e),
            };
            Ok((v, false))
        },
    }
}

} // verus!

verus! {

/// The lexer state after the named step of a token chain starting fresh.
/// These describe whole documents at the token level: `scalar_document_text`
/// is `Some(t)` exactly when the document's tokens are one start tag, its
/// close, one text run `t` in valid UTF-8, an end tag, and end of input.
pub open spec fn scalar_document_text(s: Seq<u8>) -> Option<Seq<u8>> {
    match lex_step(s, 0, LexerState::Start, Seq::empty()) {
        LexOutcome::Next { kind: TokenKind::StartTagName, buf: name, stash: st1, end: e1, st: s1 } => match lex_step(
            s,
            e1,
            s1,
            stash_for_step(s1, name, st1),
        ) {
            LexOutcome::Next { kind: TokenKind::StartTagClose, buf: b2, stash: st2, end: e2, st: s2 } => match lex_step(
                s,
                e2,
                s2,
                stash_for_step(s2, b2, st2),
            ) {
                LexOutcome::Next { kind: TokenKind::Text, buf: t, stash: st3, end: e3, st: s3 } => match lex_step(
                    s,
                    e3,
                    s3,
                    stash_for_step(s3, t, st3),
                ) {
                    LexOutcome::Next { kind: TokenKind::EndTagName, buf: b4, stash: st4, end: e4, st: s4 } => match lex_step(
                        s,
                        e4,
                        s4,
                        stash_for_step(s4, b4, st4),
                    ) {
                        LexOutcome::Next { kind: TokenKind::EndOfFile, .. } => if is_utf8(t) {
                            Some(t)
                        } else {
                            None
                        },
                        _ => None,
                    },
                    _ => None,
                },
                _ => None,
            },
            _ => None,
        },
        _ => None,
    }
}

/// `true` exactly when the document's tokens are one start tag, an
/// empty-element end, and end of input: a self-closing root element.
pub open spec fn empty_document(s: Seq<u8>) -> bool {
    match lex_step(s, 0, LexerState::Start, Seq::empty()) {
        LexOutcome::Next { kind: TokenKind::StartTagName, buf: name, stash: st1, end: e1, st: s1 } => match lex_step(
            s,
            e1,
            s1,
            stash_for_step(s1, name, st1),
        ) {
            LexOutcome::Next { kind: TokenKind::EmptyElementEnd, buf: b2, stash: st2, end: e2, st: s2 } => match lex_step(
                s,
                e2,
                s2,
                stash_for_step(s2, b2, st2),
            ) {
                LexOutcome::Next { kind: TokenKind::EndOfFile, .. } => true,
                _ => false,
            },
            _ => false,
        },
        _ => false,
    }
}

/// `Some(n)` exactly when the document's tokens are one start tag, a
/// `xsi:type` attribute whose value `n` is valid UTF-8, an empty-element
/// end, and end of input: a self-closing root that names variant `n`.
pub open spec fn unit_variant_document(s: Seq<u8>) -> Option<Seq<u8>> {
    match lex_step(s, 0, LexerState::Start, Seq::empty()) {
        LexOutcome::Next { kind: TokenKind::StartTagName, buf: name, stash: st1, end: e1, st: s1 } => match lex_step(
            s,
            e1,
            s1,
            stash_for_step(s1, name, st1),
        ) {
            LexOutcome::Next { kind: TokenKind::AttributeName, buf: an, stash: st2, end: e2, st: s2 } => if an
                == type_attr_name() {
                match lex_step(s, e2, s2, stash_for_step(s2, an, st2)) {
                    LexOutcome::Next { kind: TokenKind::AttributeValue, buf: vn, stash: st3, end: e3, st: s3 } => if is_utf8(
                        vn,
                    ) {
                        match lex_step(s, e3, s3, stash_for_step(s3, vn, st3)) {
                            LexOutcome::Next { kind: TokenKind::EmptyElementEnd, buf: b4, stash: st4, end: e4, st: s4 } => match lex_step(
                                s,
                                e4,
                                s4,
                                stash_for_step(s4, b4, st4),
                            ) {
                                LexOutcome::Next { kind: TokenKind::EndOfFile, .. } => Some(vn),
                                _ => None,
                            },
                            _ => None,
                        }
                    } else {
                        None
                    },
                    _ => None,
                }
            } else {
                None
            },
            _ => None,
        },
        _ => None,
    }
}

/// A document whose root is a keyed element with no attributes and whose
/// first child begins a requested sequence-of-scalars field: `Some((name,
/// run))`, the field name and the run of its same-named text-only
/// siblings, as `seq_field_case` sees them once the root's start tag and
/// its close are consumed.
pub open spec fn root_seq_field_document(s: Seq<u8>, fields: Vec<Field>) -> Option<
    (Seq<u8>, (Seq<Seq<u8>>, LexOutcome)),
> {
    match lex_step(s, 0, LexerState::Start, Seq::empty()) {
        LexOutcome::Next { kind: TokenKind::StartTagName, buf: name, stash: st1, end: e1, st: s1 } => match lex_step(
            s,
            e1,
            s1,
            stash_for_step(s1, name, st1),
        ) {
            LexOutcome::Next { kind: TokenKind::StartTagClose, buf: b2, stash: st2, end: e2, st: s2 } => match lex_step(
                s,
                e2,
                s2,
                stash_for_step(s2, b2, st2),
            ) {
                LexOutcome::Next { kind: TokenKind::StartTagName, buf: n, stash: st3, end: e3, st: s3 } => match field_index(
                    fields,
                    n,
                ) {
                    Some(k) => match fields[k].shape {
                        Shape::Sequence(inner) => if *inner == Shape::Scalar {
                            match lex_step(s, e3, s3, stash_for_step(s3, n, st3)) {
                                LexOutcome::Next { kind: TokenKind::StartTagClose, buf: b4, stash: st4, end: e4, st: s4 } => match scalar_run(
                                    s,
                                    e4,
                                    s4,
                                    b4,
                                    st4,
                                ) {
                                    Some(run) => Some((n, run)),
                                    None => None,
                                },
                                _ => None,
                            }
                        } else {
                            None
                        },
                        _ => None,
                    },
                    None => None,
                },
                _ => None,
            },
            _ => None,
        },
        _ => None,
    }
}

/// The document-level decoder: owns the tokenizer and enforces the single
/// root element and the trailing end of stream.
pub struct Deserializer {
    rdr: XmlIterator,
}

impl Deserializer {
    /// The tokenizer inside is well formed.
    pub closed spec fn wf(self) -> bool {
        self.rdr.wf()
    }

    /// The tokenizer has already surfaced its end-of-file token.
    pub closed spec fn at_eof(self) -> bool {
        self.rdr.spec_kind() == TokenKind::EndOfFile
    }

    /// The document bytes this decoder reads.
    pub closed spec fn doc(self) -> Seq<u8> {
        self.rdr.spec_input()
    }

    /// Every byte of the document has been consumed.
    pub closed spec fn consumed_all(self) -> bool {
        self.rdr.spec_pos() == self.rdr.spec_input().len()
    }

    /// The line of the position where reading stopped.
    pub closed spec fn spec_line(self) -> nat {
        self.rdr.spec_line()
    }

    /// The column of the position where reading stopped.
    pub closed spec fn spec_col(self) -> nat {
        self.rdr.spec_col()
    }

    /// No token has been read yet.
    pub closed spec fn fresh(self) -> bool {
        &&& self.rdr.spec_pos() == 0
        &&& self.rdr.spec_state() == LexerState::Start
        &&& self.rdr.spec_buf() == Seq::<u8>::empty()
        &&& self.rdr.spec_stash() == Seq::<u8>::empty()
        &&& self.rdr.spec_kind() == TokenKind::StartOfFile
    }

    /// A decoder over the given document bytes.
    pub fn new(rdr: Vec<u8>) -> (r: Deserializer)
        requires
            rdr@.len() < usize::MAX,
        ensures
            r.wf(),
            !r.at_eof(),
            r.fresh(),
            r.doc() == rdr@,
    {
        Deserializer { rdr: XmlIterator::new(rdr) }
    }

    /// The current token.
    fn ch(&self) -> Result<Lexical, Error> {
        self.rdr.ch()
    }

    /// Nothing may follow the root element.
    pub fn end(&self) -> (r: Result<(), Error>)
        ensures
            r is Ok <==> self.at_eof(),
            !self.at_eof() ==> r == Err::<(), Error>(Error::SyntaxError(
                ErrorCode::ExpectedEOF,
                self.spec_line() as usize,
                self.spec_col() as usize,
            )),
    {
        match self.rdr.kind() {
            TokenKind::EndOfFile => Ok(()),
            _ => Err(self.rdr.error(ErrorCode::ExpectedEOF)),
        }
    }

    /// Decode exactly one root element as the requested shape, and require
    /// the stream to end after it. Sequences are refused at the root: they
    /// are represented as repeated siblings and need an enclosing element.
    pub fn deserialize(&mut self, shape: &Shape) -> (r: Result<Value, Error>)
        requires
            old(self).wf(),
            !old(self).at_eof(),
        ensures
            final(self).wf(),
            r matches Ok(v) ==> value_fits(v, *shape) && final(self).at_eof()
                && final(self).consumed_all(),
            shape matches Shape::Sequence(_) ==> r is Err,
            old(self).fresh() && (*shape == Shape::Scalar || (*shape matches Shape::Optional(
                inner,
            ) && *inner == Shape::Scalar)) ==> (scalar_document_text(
                old(self).doc(),
            ) matches Some(t) ==> (r matches Ok(v) && scalar_text_result(v, *shape, t))),
            old(self).fresh() && (*shape matches Shape::Optional(_)) && empty_document(
                old(self).doc(),
            ) ==> r == Ok::<Value, Error>(Value::Nothing),
            old(self).fresh() ==> (*shape matches Shape::Keyed(fields) ==> (
            root_seq_field_document(old(self).doc(), fields) matches Some(p) ==> (
            r matches Ok(v) ==> (v matches Value::Record(entries) && entries@.len() >= 1
                && entries@[0].key@ == p.0 && (entries@[0].value matches Value::List(items)
                && items@.len() == p.1.0.len() && (forall|k: int| 0 <= k < items@.len() ==> ((
            #[trigger] items@[k]) matches Value::Text(tv) && tv@ == p.1.0[k]))))))),
            old(self).fresh() && (*shape matches Shape::Variant(_)) ==> (match lex_step(
                old(self).doc(),
                0,
                LexerState::Start,
                Seq::empty(),
            ) {
                LexOutcome::Next { kind: k0, buf: name, stash: st1, end: e1, st: s1 } => if k0
                    == TokenKind::StartTagName {
                    match lex_step(old(self).doc(), e1, s1, stash_for_step(s1, name, st1)) {
                        LexOutcome::Next { kind: k1, buf: b1, .. } => !(k1
                            == TokenKind::AttributeName && b1 == type_attr_name()) ==> r is Err,
                        LexOutcome::Failed { .. } => r is Err,
                    }
                } else {
                    r is Err
                },
                LexOutcome::Failed { .. } => r is Err,
            }),
            old(self).fresh() ==> (*shape matches Shape::Variant(defs) ==> (unit_variant_document(
                old(self).doc(),
            ) matches Some(vn) ==> (variant_index(defs, vn) matches Some(k) ==> (defs[
                k
            ].payload is Unit ==> (r matches Ok(v) && (v matches Value::Variant(nm, pl) && nm@
                == vn && *pl == Value::Unit)))))),
    {
        match shape {
            Shape::Sequence(_) => Err(self.rdr.error(ErrorCode::XmlDoesntSupportSeqofSeq)),
            Shape::Variant(defs) => {
                match advance(&mut self.rdr) {
                    Ok(Lexical::StartTagName(_)) => {},
                    Ok(_) => return Err(self.rdr.expected(Expectation::StartTagName)),
                    Err(e) => return Err(e),
                }
                match advance(&mut self.rdr) {
                    Ok(_) => {},
                    Err(e) => return Err(e),
                }
                let v = match decode_variant(&mut self.rdr, defs) {
                    Ok(v) => v,
                    Err(e) => return Err(e),
                };
                match self.rdr.kind() {
                    TokenKind::EndTagName | TokenKind::EmptyElementEnd => {},
                    _ => return Err(self.rdr.expected(Expectation::EndTag)),
                }
                match advance(&mut self.rdr) {
                    Ok(Lexical::EndOfFile) => {},
                    Ok(_) => return Err(self.rdr.expected(Expectation::EndOfFile)),
                    Err(e) => return Err(e),
                }
                Ok(v)
            },
            _ => {
                match advance(&mut self.rdr) {
                    Ok(Lexical::StartTagName(_)) => {},
                    Ok(_) => return Err(self.rdr.expected(Expectation::StartTagName)),
                    Err(e) => return Err(e),
                }
                match advance(&mut self.rdr) {
                    Ok(_) => {},
                    Err(e) => return Err(e),
                }
                let (v, is_seq) = match decode_inner(&mut self.rdr, shape) {
                    Ok(p) => p,
                    Err(e) => return Err(e),
                };
                if is_seq {
                    return Err(self.rdr.error(ErrorCode::XmlDoesntSupportSeqofSeq));
                }
                match self.rdr.kind() {
                    TokenKind::EndTagName | TokenKind::EmptyElementEnd => {},
                    _ => return Err(self.rdr.expected(Expectation::EndTag)),
                }
                match advance(&mut self.rdr) {
                    Ok(Lexical::EndOfFile) => {},
                    Ok(_) => return Err(self.rdr.expected(Expectation::EndOfFile)),
                    Err(e) => return Err(e),
                }
                Ok(v)
            },
        }
    }
}

/// Decoding of one nested value, exposed for composition: the shape picks
/// the grammar and the flag reports whether a sequence was decoded, since
/// a sequence consumes its own trailing end tag.
pub struct InnerDeserializer;

impl InnerDeserializer {
    /// Decode one nested value at a start tag's close.
    pub fn decode(xi: &mut XmlIterator, shape: &Shape) -> (r: Result<(Value, bool), Error>)
        requires
            old(xi).wf(),
        ensures
            final(xi).wf(),
            final(xi).spec_input() == old(xi).spec_input(),
            r matches Ok((v, is_seq)) ==> value_fits(v, *shape) && (is_seq ==> seq_like(*shape)),
            old(xi).spec_kind() == TokenKind::EmptyElementEnd && *shape == Shape::Scalar ==> r
                == Ok::<(Value, bool), Error>((Value::Unit, false)) && *final(xi) == *old(xi),
            old(xi).spec_kind() == TokenKind::EmptyElementEnd && (*shape matches Shape::Optional(
                _,
            )) ==> r == Ok::<(Value, bool), Error>((Value::Nothing, false)) && *final(xi) == *old(
                xi,
            ),
            (*shape matches Shape::Sequence(inner2) && *inner2 == Shape::Scalar && old(
                xi,
            ).spec_kind() == TokenKind::StartTagClose) ==> (scalar_run(
                old(xi).spec_input(),
                old(xi).spec_pos(),
                old(xi).spec_state(),
                old(xi).spec_buf(),
                old(xi).spec_stash(),
            ) matches Some(run) ==> ({
                &&& r matches Ok((v, f)) && (v matches Value::List(items) && items@.len()
                    == run.0.len() && (forall|k: int| 0 <= k < items@.len() ==> ((
                #[trigger] items@[k]) matches Value::Text(tv) && tv@ == run.0[k]))) && f == true
                &&& at_outcome(*final(xi), old(xi).spec_input(), run.1)
            })),
            *shape matches Shape::Keyed(fields) ==> ({
                &&& (old(xi).spec_kind() == TokenKind::EmptyElementEnd && distinct_names(fields)
                    ==> (r matches Ok((v, f)) ==> (v matches Value::Record(entries)
                    && absent_entries_ok(entries, fields))))
                &&& (first_attr_case(*old(xi), fields) matches Some(p) ==> (r matches Ok(
                    (v, f),
                ) ==> (v matches Value::Record(entries) && entries@.len() >= 1
                    && entries@[0].key@ == p.0 && (entries@[0].value matches Value::Text(tv)
                    && tv@ == p.1))))
                &&& (inline_text_case(*old(xi), fields) matches Some(t) ==> (r matches Ok(
                    (v, f),
                ) ==> (v matches Value::Record(entries) && entries@.len() >= 1
                    && entries@[0].key@ == value_key() && (
                entries@[0].value matches Value::Text(tv) && tv@ == t))))
                &&& (seq_field_case(*old(xi), fields) matches Some(p) ==> (r matches Ok(
                    (v, f),
                ) ==> (v matches Value::Record(entries) && entries@.len() >= 1
                    && entries@[0].key@ == p.0 && (entries@[0].value matches Value::List(items)
                    && items@.len() == p.1.0.len() && (forall|k: int| 0 <= k < items@.len()
                    ==> ((#[trigger] items@[k]) matches Value::Text(tv) && tv@ == p.1.0[k]))))))
            }),
            ((*shape == Shape::Scalar || (*shape matches Shape::Optional(inner) && *inner
                == Shape::Scalar)) && old(xi).spec_kind() == TokenKind::StartTagClose) ==> ({
                let step1 = lex_step(
                    old(xi).spec_input(),
                    old(xi).spec_pos(),
                    old(xi).spec_state(),
                    stash_for_step(
                        old(xi).spec_state(),
                        old(xi).spec_buf(),
                        old(xi).spec_stash(),
                    ),
                );
                match step1 {
                    LexOutcome::Next { kind: TokenKind::Text, buf, stash, end, st } => {
                        is_utf8(buf) ==> (lex_step(
                            old(xi).spec_input(),
                            end,
                            st,
                            stash_for_step(st, buf, stash),
                        ) is Next ==> (r matches Ok((v, f)) && scalar_text_result(v, *shape, buf)
                            && f == false))
                    },
                    _ => true,
                }
            }),
    {
        decode_inner(xi, shape)
    }
}

/// The leaf adapter that turns one decoded byte string into a scalar
/// value or a key.
pub struct KeyDeserializer;

impl KeyDeserializer {
    /// The string itself, as a scalar value.
    pub fn visit(text: &Vec<u8>) -> (r: Value)
        ensures
            r matches Value::Text(t) && t@ == text@,
    {
        Value::Text(own_bytes(text))
    }

    /// The reserved key that stands for an element's own inline text.
    pub fn value_map() -> (r: Vec<u8>)
        ensures
            r@ == value_key(),
    {
        make_value_key()
    }
}

/// Decode one value of the given shape from document bytes.
pub fn from_iter(bytes: Vec<u8>, shape: &Shape) -> (r: Result<Value, Error>)
    requires
        bytes@.len() < usize::MAX,
    ensures
        r matches Ok(v) ==> value_fits(v, *shape),
        (*shape == Shape::Scalar || (*shape matches Shape::Optional(inner) && *inner
            == Shape::Scalar)) ==> (scalar_document_text(bytes@) matches Some(t) ==> (
        r matches Ok(v) && scalar_text_result(v, *shape, t))),
        (*shape matches Shape::Optional(_)) && empty_document(bytes@) ==> r == Ok::<
            Value,
            Error,
        >(Value::Nothing),
        *shape matches Shape::Keyed(fields) ==> (root_seq_field_document(
            bytes@,
            fields,
        ) matches Some(p) ==> (r matches Ok(v) ==> (v matches Value::Record(entries)
            && entries@.len() >= 1 && entries@[0].key@ == p.0 && (
        entries@[0].value matches Value::List(items) && items@.len() == p.1.0.len() && (forall|
            k: int,
        | 0 <= k < items@.len() ==> ((#[trigger] items@[k]) matches Value::Text(tv) && tv@
            == p.1.0[k])))))),
        *shape matches Shape::Variant(_) ==> (match lex_step(
            bytes@,
            0,
            LexerState::Start,
            Seq::empty(),
        ) {
            LexOutcome::Next { kind: k0, buf: name, stash: st1, end: e1, st: s1 } => if k0
                == TokenKind::StartTagName {
                match lex_step(bytes@, e1, s1, stash_for_step(s1, name, st1)) {
                    LexOutcome::Next { kind: k1, buf: b1, .. } => !(k1
                        == TokenKind::AttributeName && b1 == type_attr_name()) ==> r is Err,
                    LexOutcome::Failed { .. } => r is Err,
                }
            } else {
                r is Err
            },
            LexOutcome::Failed { .. } => r is Err,
        }),
        *shape matches Shape::Variant(defs) ==> (unit_variant_document(bytes@) matches Some(vn)
            ==> (variant_index(defs, vn) matches Some(k) ==> (defs[k].payload is Unit ==> (
        r matches Ok(v) && (v matches Value::Variant(nm, pl) && nm@ == vn && *pl
            == Value::Unit))))),
{
    let mut de = Deserializer::new(bytes);
    let value = match de.deserialize(shape) {
        Ok(v) => v,
        Err(e) => return Err(e),
    };
    match de.end() {
        Ok(()) => Ok(value),
        Err(e) => Err(e),
    }
}

/// Decode one value of the given shape from a string.
pub fn from_str(s: &str, shape: &Shape) -> (r: Result<Value, Error>)
    requires
        s.spec_bytes().len() < usize::MAX,
    ensures
        r matches Ok(v) ==> value_fits(v, *shape),
        (*shape == Shape::Scalar || (*shape matches Shape::Optional(inner) && *inner
            == Shape::Scalar)) ==> (scalar_document_text(s.spec_bytes()) matches Some(t) ==> (
        r matches Ok(v) && scalar_text_result(v, *shape, t))),
        (*shape matches Shape::Optional(_)) && empty_document(s.spec_bytes()) ==> r == Ok::<
            Value,
            Error,
        >(Value::Nothing),
        *shape matches Shape::Keyed(fields) ==> (root_seq_field_document(
            s.spec_bytes(),
            fields,
        ) matches Some(p) ==> (r matches Ok(v) ==> (v matches Value::Record(entries)
            && entries@.len() >= 1 && entries@[0].key@ == p.0 && (
        entries@[0].value matches Value::List(items) && items@.len() == p.1.0.len() && (forall|
            k: int,
        | 0 <= k < items@.len() ==> ((#[trigger] items@[k]) matches Value::Text(tv) && tv@
            == p.1.0[k])))))),
        *shape matches Shape::Variant(_) ==> (match lex_step(
            s.spec_bytes(),
            0,
            LexerState::Start,
            Seq::empty(),
        ) {
            LexOutcome::Next { kind: k0, buf: name, stash: st1, end: e1, st: s1 } => if k0
                == TokenKind::StartTagName {
                match lex_step(s.spec_bytes(), e1, s1, stash_for_step(s1, name, st1)) {
                    LexOutcome::Next { kind: k1, buf: b1, .. } => !(k1
                        == TokenKind::AttributeName && b1 == type_attr_name()) ==> r is Err,
                    LexOutcome::Failed { .. } => r is Err,
                }
            } else {
                r is Err
            },
            LexOutcome::Failed { .. } => r is Err,
        }),
        *shape matches Shape::Variant(defs) ==> (unit_variant_document(
            s.spec_bytes(),
        ) matches Some(vn) ==> (variant_index(defs, vn) matches Some(k) ==> (defs[
            k
        ].payload is Unit ==> (r matches Ok(v) && (v matches Value::Variant(nm, pl) && nm@ == vn
            && *pl == Value::Unit))))),
{
    from_iter(s.as_bytes_vec(), shape)
}

} // verus!
