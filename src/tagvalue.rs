use vstd::prelude::*;
use vstd::utf8::encode_utf8;
use crate::dictionary::{type_of_tag, Dictionary, StandardTagLookup};
use crate::fields::{initial_state, lemma_step_advances, step, FieldIter, IterState, Step};
use crate::message::{
    insert_field, lemma_tag_index_absent, lemma_tag_index_some, tag_index, BaseType, Error,
    FieldValue, Message, Value,
};
use crate::text::{find_byte, int_text, nat_text, push_int_text, tag_of_text};

verus! {

/// Settings of the wire format that a user of the codec chooses.
pub trait Transmuter: Clone {
    /// The byte that ends each field: SOH unless chosen otherwise.
    fn soh_separator(&self) -> u8 {
        1u8
    }

    /// Whether the trailer's checksum is to be compared with the computed one.
    fn validate_checksum(&self) -> bool {
        true
    }
}

/// The outcome of reading the fields after the header from state `s`, into
/// the message `msg` whose last field so far had tag `last`.
pub open spec fn decode_rest(
    input: Seq<u8>,
    sep: u8,
    entries: Seq<(u32, BaseType)>,
    s: IterState,
    msg: Seq<(u32, Value)>,
    last: u32,
) -> Result<Seq<(u32, Value)>, Error>
    decreases input.len() - s.pos,
{
    match step(input, sep, entries, s) {
        Step::End => if last == 10 {
            Ok(msg)
        } else {
            Err(Error::InvalidStandardTrailer)
        },
        Step::Fail(x) => Err(x),
        // Reading a field always moves forward (`lemma_step_advances`): the
        // second branch is never taken.
        Step::Yield(tag, v, n) => if s.pos < n.pos <= input.len() {
            decode_rest(input, sep, entries, n, insert_field(msg, tag, v), tag)
        } else {
            Err(Error::Eof)
        },
    }
}

/// The message that `input` holds: three header fields with tags 8, 9 and
/// 35 in that order, then fields up to one with tag 10.
pub open spec fn decode_spec(input: Seq<u8>, sep: u8, entries: Seq<(u32, BaseType)>) -> Result<
    Seq<(u32, Value)>,
    Error,
> {
    match step(input, sep, entries, initial_state()) {
        Step::End => Err(Error::Eof),
        Step::Fail(x) => Err(x),
        Step::Yield(t1, v1, s1) => if t1 != 8 {
            Err(Error::InvalidStandardHeader)
        } else {
            match step(input, sep, entries, s1) {
                Step::End => Err(Error::InvalidStandardHeader),
                Step::Fail(x) => Err(x),
                Step::Yield(t2, v2, s2) => if t2 != 9 {
                    Err(Error::InvalidStandardHeader)
                } else {
                    match step(input, sep, entries, s2) {
                        Step::End => Err(Error::InvalidStandardHeader),
                        Step::Fail(x) => Err(x),
                        Step::Yield(t3, v3, s3) => if t3 != 35 {
                            Err(Error::InvalidStandardHeader)
                        } else {
                            let m = insert_field(
                                insert_field(insert_field(Seq::empty(), 8, v1), 9, v2),
                                35,
                                v3,
                            );
                            decode_rest(input, sep, entries, s3, m, 35)
                        },
                    }
                },
            }
        },
    }
}

/// A stream whose first field reads well but has a tag other than 8 is
/// rejected for its header.
pub proof fn lemma_header_enforced(input: Seq<u8>, sep: u8, entries: Seq<(u32, BaseType)>)
    requires
        step(input, sep, entries, initial_state()) matches Step::Yield(t, _, _) && t != 8,
    ensures
        decode_spec(input, sep, entries) == Err::<Seq<(u32, Value)>, Error>(
            Error::InvalidStandardHeader,
        ),
{
}

/// A stream whose first field reads well but does not end with a separator
/// fails for want of bytes.
pub proof fn lemma_unterminated_value_is_eof(
    input: Seq<u8>,
    sep: u8,
    entries: Seq<(u32, BaseType)>,
    s: IterState,
    e: int,
)
    requires
        !s.is_last,
        s.pos < input.len(),
        find_byte(input, s.pos as int, 61) == Some(e),
        tag_of_text(input.subrange(s.pos as int, e)) matches Some(tag) && type_of_tag(entries, tag)
            != BaseType::Data,
        find_byte(input, e + 1, sep) is None,
    ensures
        step(input, sep, entries, s) == Step::Fail(Error::Eof),
{
    reveal(step);
}

/// From state `s` every field reads well, none has tag 10, and the stream
/// then ends.
pub open spec fn reads_to_end_without_trailer(
    input: Seq<u8>,
    sep: u8,
    entries: Seq<(u32, BaseType)>,
    s: IterState,
) -> bool
    decreases input.len() - s.pos,
{
    match step(input, sep, entries, s) {
        Step::End => true,
        Step::Fail(_) => false,
        Step::Yield(tag, _, n) => tag != 10 && s.pos < n.pos <= input.len()
            && reads_to_end_without_trailer(input, sep, entries, n),
    }
}

proof fn lemma_rest_without_trailer(
    input: Seq<u8>,
    sep: u8,
    entries: Seq<(u32, BaseType)>,
    s: IterState,
    msg: Seq<(u32, Value)>,
    last: u32,
)
    requires
        last != 10,
        reads_to_end_without_trailer(input, sep, entries, s),
    ensures
        decode_rest(input, sep, entries, s, msg, last) == Err::<Seq<(u32, Value)>, Error>(
            Error::InvalidStandardTrailer,
        ),
    decreases input.len() - s.pos,
{
    if let Step::Yield(tag, v, n) = step(input, sep, entries, s) {
        lemma_rest_without_trailer(input, sep, entries, n, insert_field(msg, tag, v), tag);
    }
}

/// A stream with a well-read header of tags 8, 9 and 35, whose later fields
/// all read well but none has tag 10 before the stream ends, is rejected for
/// its trailer.
pub proof fn lemma_trailer_enforced(input: Seq<u8>, sep: u8, entries: Seq<(u32, BaseType)>)
    requires
        ({
            let r1 = step(input, sep, entries, initial_state());
            let r2 = step(input, sep, entries, r1->Yield_2);
            let r3 = step(input, sep, entries, r2->Yield_2);
            &&& r1 is Yield && r1->Yield_0 == 8
            &&& r2 is Yield && r2->Yield_0 == 9
            &&& r3 is Yield && r3->Yield_0 == 35
            &&& reads_to_end_without_trailer(input, sep, entries, r3->Yield_2)
        }),
    ensures
        decode_spec(input, sep, entries) == Err::<Seq<(u32, Value)>, Error>(
            Error::InvalidStandardTrailer,
        ),
{
    let s1 = step(input, sep, entries, initial_state())->Yield_2;
    let s2 = step(input, sep, entries, s1)->Yield_2;
    let s3 = step(input, sep, entries, s2)->Yield_2;
    let v1 = step(input, sep, entries, initial_state())->Yield_1;
    let v2 = step(input, sep, entries, s1)->Yield_1;
    let v3 = step(input, sep, entries, s2)->Yield_1;
    let m = insert_field(insert_field(insert_field(Seq::empty(), 8, v1), 9, v2), 35, v3);
    lemma_rest_without_trailer(input, sep, entries, s3, m, 35);
}

/// From state `s` fields read well, none with tag 10, until one fails with
/// error `x`.
pub open spec fn reads_to_failure(
    input: Seq<u8>,
    sep: u8,
    entries: Seq<(u32, BaseType)>,
    s: IterState,
    x: Error,
) -> bool
    decreases input.len() - s.pos,
{
    match step(input, sep, entries, s) {
        Step::End => false,
        Step::Fail(y) => y == x,
        Step::Yield(tag, _, n) => tag != 10 && s.pos < n.pos <= input.len() && reads_to_failure(
            input,
            sep,
            entries,
            n,
            x,
        ),
    }
}

proof fn lemma_rest_failure(
    input: Seq<u8>,
    sep: u8,
    entries: Seq<(u32, BaseType)>,
    s: IterState,
    msg: Seq<(u32, Value)>,
    last: u32,
    x: Error,
)
    requires
        reads_to_failure(input, sep, entries, s, x),
    ensures
        decode_rest(input, sep, entries, s, msg, last) == Err::<Seq<(u32, Value)>, Error>(x),
    decreases input.len() - s.pos,
{
    if let Step::Yield(tag, v, n) = step(input, sep, entries, s) {
        lemma_rest_failure(input, sep, entries, n, insert_field(msg, tag, v), tag, x);
    }
}

/// After a well-read header of tags 8, 9 and 35, a field that fails to read
/// (a value cut off before its separator: `Eof`) fails the whole message
/// with that error, whatever came between.
pub proof fn lemma_field_error_propagates(
    input: Seq<u8>,
    sep: u8,
    entries: Seq<(u32, BaseType)>,
    x: Error,
)
    requires
        ({
            let r1 = step(input, sep, entries, initial_state());
            let r2 = step(input, sep, entries, r1->Yield_2);
            let r3 = step(input, sep, entries, r2->Yield_2);
            &&& r1 is Yield && r1->Yield_0 == 8
            &&& r2 is Yield && r2->Yield_0 == 9
            &&& r3 is Yield && r3->Yield_0 == 35
            &&& reads_to_failure(input, sep, entries, r3->Yield_2, x)
        }),
    ensures
        decode_spec(input, sep, entries) == Err::<Seq<(u32, Value)>, Error>(x),
{
    let s1 = step(input, sep, entries, initial_state())->Yield_2;
    let s2 = step(input, sep, entries, s1)->Yield_2;
    let s3 = step(input, sep, entries, s2)->Yield_2;
    let v1 = step(input, sep, entries, initial_state())->Yield_1;
    let v2 = step(input, sep, entries, s1)->Yield_1;
    let v3 = step(input, sep, entries, s2)->Yield_1;
    let m = insert_field(insert_field(insert_field(Seq::empty(), 8, v1), 9, v2), 35, v3);
    lemma_rest_failure(input, sep, entries, s3, m, 35, x);
}

proof fn lemma_insert_keeps_tags(m: Seq<(u32, Value)>, tag: u32, v: Value)
    ensures
        insert_field(m, tag, v).len() >= m.len(),
        forall|i: int| 0 <= i < m.len() ==> (#[trigger] insert_field(m, tag, v)[i]).0 == m[i].0,
        exists|i: int| 0 <= i < insert_field(m, tag, v).len() && (#[trigger] insert_field(m, tag, v)[i]).0 == tag,
{
    lemma_tag_index_some(m, tag);
    let r = insert_field(m, tag, v);
    match tag_index(m, tag) {
        Some(i) => {
            assert(r[i].0 == tag);
        },
        None => {
            assert(r[m.len() as int].0 == tag);
        },
    }
}

proof fn lemma_rest_framed(
    input: Seq<u8>,
    sep: u8,
    entries: Seq<(u32, BaseType)>,
    s: IterState,
    msg: Seq<(u32, Value)>,
    last: u32,
)
    requires
        last == 10 ==> exists|i: int| 0 <= i < msg.len() && (#[trigger] msg[i]).0 == 10,
    ensures
        decode_rest(input, sep, entries, s, msg, last) matches Ok(m) ==> {
            &&& m.len() >= msg.len()
            &&& forall|i: int| 0 <= i < msg.len() ==> (#[trigger] m[i]).0 == msg[i].0
            &&& exists|i: int| 0 <= i < m.len() && (#[trigger] m[i]).0 == 10
        },
    decreases input.len() - s.pos,
{
    if let Step::Yield(tag, v, n) = step(input, sep, entries, s) {
        if s.pos < n.pos <= input.len() {
            let next = insert_field(msg, tag, v);
            lemma_insert_keeps_tags(msg, tag, v);
            if tag == 10 {
                let i = choose|i: int| 0 <= i < next.len() && (#[trigger] next[i]).0 == tag;
                assert(next[i].0 == 10);
            }
            lemma_rest_framed(input, sep, entries, n, next, tag);
        }
    }
}

/// A stream decodes only into a message that begins with the header tags
/// 8, 9 and 35, in that order, and holds the trailer tag 10.
pub proof fn lemma_decoded_message_is_framed(input: Seq<u8>, sep: u8, entries: Seq<(u32, BaseType)>)
    ensures
        decode_spec(input, sep, entries) matches Ok(m) ==> {
            &&& m.len() >= 3
            &&& m[0].0 == 8 && m[1].0 == 9 && m[2].0 == 35
            &&& exists|i: int| 0 <= i < m.len() && (#[trigger] m[i]).0 == 10
        },
{
    let s0 = initial_state();
    if let Step::Yield(t1, v1, s1) = step(input, sep, entries, s0) {
        if let Step::Yield(t2, v2, s2) = step(input, sep, entries, s1) {
            if let Step::Yield(t3, v3, s3) = step(input, sep, entries, s2) {
                if t1 == 8 && t2 == 9 && t3 == 35 {
                    let m1 = insert_field(Seq::empty(), 8, v1);
                    let m2 = insert_field(m1, 9, v2);
                    let m3 = insert_field(m2, 35, v3);
                    assert(m1 =~= seq![(8u32, v1)]);
                    assert(m1.drop_last() =~= Seq::<(u32, Value)>::empty());
                    lemma_tag_index_absent(m1, 9);
                    assert(m2 =~= seq![(8u32, v1), (9u32, v2)]);
                    assert(m2.drop_last() =~= m1);
                    lemma_tag_index_absent(m2, 35);
                    assert(m3 =~= seq![(8u32, v1), (9u32, v2), (35u32, v3)]);
                    lemma_rest_framed(input, sep, entries, s3, m3, 35);
                }
            }
        }
    }
}

pub open spec fn message_result(r: Result<Message, Error>) -> Result<Seq<(u32, Value)>, Error> {
    match r {
        Ok(m) => Ok(m@),
        Err(e) => Err(e),
    }
}

/// Wire form of a value.
pub open spec fn value_bytes(v: Value) -> Seq<u8> {
    match v {
        Value::Int(i) => int_text(i as int),
        Value::Float(t) => encode_utf8(t),
        Value::Char(c) => seq![c],
        Value::Text(t) => encode_utf8(t),
        Value::Data(d) => d,
    }
}

/// Wire form of a field: `<tag>=<value><sep>`.
pub open spec fn field_bytes(tag: u32, v: Value, sep: u8) -> Seq<u8> {
    nat_text(tag as nat) + seq![61u8] + value_bytes(v) + seq![sep]
}

/// Wire form of a message: its fields in order.
pub open spec fn message_bytes(m: Seq<(u32, Value)>, sep: u8) -> Seq<u8>
    decreases m.len(),
{
    if m.len() == 0 {
        Seq::empty()
    } else {
        message_bytes(m.drop_last(), sep) + field_bytes(m.last().0, m.last().1, sep)
    }
}

/// Decodes one message from `source`, whose fields end with `separator`.
pub fn decode_message(dict: &Dictionary, separator: u8, source: &[u8]) -> (r: Result<
    Message,
    Error,
>)
    ensures
        message_result(r) == decode_spec(source@, separator, dict@),
        r is Ok ==> r->Ok_0.wf(),
{
    let ghost input = source@;
    let ghost entries = dict@;
    let mut field_iter = FieldIter::new(source, StandardTagLookup::new(dict), separator);
    let mut message = Message::new();
    // `BeginString(8)`.
    let f = match field_iter.next() {
        None => return Err(Error::Eof),
        Some(Err(x)) => return Err(x),
        Some(Ok(f)) => f,
    };
    if f.tag != 8 {
        return Err(Error::InvalidStandardHeader);
    }
    message.insert(f.tag, f.value);
    // `BodyLength(9)`.
    let f = match field_iter.next() {
        None => return Err(Error::InvalidStandardHeader),
        Some(Err(x)) => return Err(x),
        Some(Ok(f)) => f,
    };
    if f.tag != 9 {
        return Err(Error::InvalidStandardHeader);
    }
    message.insert(f.tag, f.value);
    // `MsgType(35)`.
    let f = match field_iter.next() {
        None => return Err(Error::InvalidStandardHeader),
        Some(Err(x)) => return Err(x),
        Some(Ok(f)) => f,
    };
    if f.tag != 35 {
        return Err(Error::InvalidStandardHeader);
    }
    message.insert(f.tag, f.value);
    let mut last_tag: u32 = 35;
    loop
        invariant
            input == source@,
            entries == dict@,
            field_iter.wf(),
            field_iter.input() == input,
            field_iter.separator() == separator,
            field_iter.entries() == entries,
            message.wf(),
            decode_rest(input, separator, entries, field_iter.state(), message@, last_tag)
                == decode_spec(input, separator, entries),
        decreases input.len() - field_iter.state().pos,
    {
        let ghost s = field_iter.state();
        proof {
            field_iter.lemma_wf();
            lemma_step_advances(input, separator, entries, s);
        }
        match field_iter.next() {
            None => {
                assert(step(input, separator, entries, s) is End);
                if last_tag == 10 {
                    return Ok(message);
                } else {
                    return Err(Error::InvalidStandardTrailer);
                }
            },
            Some(Err(x)) => return Err(x),
            Some(Ok(f)) => {
                message.insert(f.tag, f.value);
                last_tag = f.tag;
            },
        }
    }
}

fn push_bytes(out: &mut Vec<u8>, b: &[u8])
    ensures
        final(out)@ == old(out)@ + b@,
{
    let mut i: usize = 0;
    while i < b.len()
        invariant
            i <= b@.len(),
            out@ == old(out)@ + b@.subrange(0, i as int),
        decreases b@.len() - i,
    {
        out.push(b[i]);
        i += 1;
        assert(out@ =~= old(out)@ + b@.subrange(0, i as int));
    }
    assert(b@.subrange(0, b@.len() as int) =~= b@);
}

/// Writes `<tag>=<value><separator>` at the end of `out`.
pub fn encode_field(tag: u32, value: &FieldValue, separator: u8, out: &mut Vec<u8>)
    ensures
        final(out)@ == old(out)@ + field_bytes(tag, value@, separator),
{
    push_int_text(tag as i64, out);
    out.push(61u8);
    match value {
        FieldValue::Int(v) => push_int_text(*v, out),
        FieldValue::Float(t) => push_bytes(out, t.as_str().as_bytes()),
        FieldValue::Char(c) => out.push(*c),
        FieldValue::String(t) => push_bytes(out, t.as_str().as_bytes()),
        FieldValue::Data(d) => push_bytes(out, d.as_slice()),
    }
    out.push(separator);
    assert(final(out)@ =~= old(out)@ + field_bytes(tag, value@, separator));
}

/// Writes every field of `message`, in order, each ended by `separator`.
pub fn encode_message(message: &Message, separator: u8) -> (r: Vec<u8>)
    ensures
        r@ == message_bytes(message@, separator),
{
    let mut target: Vec<u8> = Vec::new();
    let mut i: usize = 0;
    while i < message.len()
        invariant
            i <= message@.len(),
            target@ == message_bytes(message@.subrange(0, i as int), separator),
        decreases message@.len() - i,
    {
        let (tag, value) = message.field_at(i);
        encode_field(tag, value, separator, &mut target);
        proof {
            let p = message@.subrange(0, i + 1);
            assert(p.drop_last() =~= message@.subrange(0, i as int));
        }
        i += 1;
    }
    assert(message@.subrange(0, message@.len() as int) =~= message@);
    target
}

/// A (de)serializer for the classic FIX tag-value encoding.
pub struct TagValue<Z: Transmuter> {
    dict: Dictionary,
    transmuter: Z,
}

impl<Z: Transmuter> TagValue<Z> {
    pub closed spec fn dictionary(&self) -> Seq<(u32, BaseType)> {
        self.dict@
    }

    pub closed spec fn transmuter(&self) -> Z {
        self.transmuter
    }

    /// A codec with a dictionary that knows no tag: every value is text.
    pub fn new(transmuter: Z) -> (r: Self)
        ensures
            forall|t: u32| crate::dictionary::entry_type(r.dictionary(), t) is None,
            r.transmuter() == transmuter,
    {
        TagValue { dict: Dictionary::empty(), transmuter }
    }

    /// A codec that reads values as `dict` types them.
    pub fn with_dict(transmuter: Z, dict: Dictionary) -> (r: Self)
        ensures
            r.dictionary() == dict@,
            r.transmuter() == transmuter,
    {
        TagValue { dict, transmuter }
    }

    /// Decodes one message from `source`, with the separator the transmuter
    /// gives.
    pub fn decode(&self, source: &[u8]) -> (r: Result<Message, Error>)
        ensures
            exists|sep: u8| message_result(r) == decode_spec(source@, sep, self.dictionary()),
            r is Ok ==> r->Ok_0.wf(),
    {
        let sep = self.transmuter.soh_separator();
        let r = decode_message(&self.dict, sep, source);
        assert(message_result(r) == decode_spec(source@, sep, self.dictionary()));
        r
    }

    /// Encodes every field of `message`, in order, with the separator the
    /// transmuter gives.
    pub fn encode(&self, message: &Message) -> (r: Result<Vec<u8>, Error>)
        ensures
            r is Ok,
            exists|sep: u8| r->Ok_0@ == message_bytes(message@, sep),
    {
        let sep = self.transmuter.soh_separator();
        let bytes = encode_message(message, sep);
        assert(bytes@ == message_bytes(message@, sep));
        Ok(bytes)
    }
}

} // verus!
