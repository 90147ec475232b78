use vstd::prelude::*;
use vstd::utf8::{decode_utf8, valid_utf8};
use vstd::slice::slice_to_vec;
use crate::text::{float_text, int_of_text, is_float_text, parse_int, utf8_text};

verus! {

/// The datatype a tag's value is read as.
#[derive(Clone, Copy, Debug, PartialEq, Eq, Structural)]
pub enum BaseType {
    Int,
    Float,
    Char,
    String,
    Data,
}

/// A datatype together with what reading it needs: the length of a
/// length-prefixed data value.
#[derive(Clone, Copy, Debug, PartialEq, Eq, Structural)]
pub enum TypeInfo {
    Int,
    Float,
    Char,
    String,
    Data(usize),
}

/// Mathematical model of a field value.
pub enum Value {
    Int(i64),
    /// The decimal text of the number.
    Float(Seq<char>),
    Char(u8),
    Text(Seq<char>),
    Data(Seq<u8>),
}

/// A typed field value. A floating-point value is kept as its decimal text,
/// which has been checked to denote a number.
#[derive(Clone, Debug, PartialEq)]
pub enum FieldValue {
    Int(i64),
    Float(String),
    Char(u8),
    String(String),
    Data(Vec<u8>),
}

impl View for FieldValue {
    type V = Value;

    open spec fn view(&self) -> Value {
        match self {
            FieldValue::Int(v) => Value::Int(*v),
            FieldValue::Float(s) => Value::Float(s@),
            FieldValue::Char(c) => Value::Char(*c),
            FieldValue::String(s) => Value::Text(s@),
            FieldValue::Data(d) => Value::Data(d@),
        }
    }
}

/// What the bytes `raw` hold when read as `ty`.
pub open spec fn parse_value(ty: BaseType, raw: Seq<u8>) -> Result<Value, Error> {
    match ty {
        BaseType::Char => if raw.len() > 0 {
            Ok(Value::Char(raw[0]))
        } else {
            Err(Error::Syntax)
        },
        BaseType::String => if valid_utf8(raw) {
            Ok(Value::Text(decode_utf8(raw)))
        } else {
            Err(Error::Syntax)
        },
        BaseType::Data => Ok(Value::Data(raw)),
        BaseType::Float => if valid_utf8(raw) && float_text(raw) {
            Ok(Value::Float(decode_utf8(raw)))
        } else {
            Err(Error::Syntax)
        },
        BaseType::Int => match int_of_text(raw) {
            Some(v) => Ok(Value::Int(v)),
            None => Err(Error::Syntax),
        },
    }
}

pub open spec fn value_result(r: Result<FieldValue, Error>) -> Result<Value, Error> {
    match r {
        Ok(v) => Ok(v@),
        Err(e) => Err(e),
    }
}

/// Reads the bytes `buf` as a value of type `datatype`.
pub fn field_value(datatype: BaseType, buf: &[u8]) -> (r: Result<FieldValue, Error>)
    ensures
        value_result(r) == parse_value(datatype, buf@),
{
    match datatype {
        BaseType::Char => if buf.len() > 0 {
            Ok(FieldValue::Char(buf[0]))
        } else {
            Err(Error::Syntax)
        },
        BaseType::String => match utf8_text(buf) {
            Some(s) => Ok(FieldValue::String(s)),
            None => Err(Error::Syntax),
        },
        BaseType::Data => Ok(FieldValue::Data(slice_to_vec(buf))),
        BaseType::Float => match utf8_text(buf) {
            Some(s) => if is_float_text(buf) {
                Ok(FieldValue::Float(s))
            } else {
                Err(Error::Syntax)
            },
            None => Err(Error::Syntax),
        },
        BaseType::Int => match parse_int(buf) {
            Some(v) => Ok(FieldValue::Int(v)),
            None => Err(Error::Syntax),
        },
    }
}

/// A field as the decoder produces it: its tag and value, with the checksum
/// and the number of bytes it covered once the field was read.
#[derive(Clone, Debug, PartialEq)]
pub struct Field {
    pub tag: u32,
    pub value: FieldValue,
    pub checksum: u8,
    pub len: usize,
}

/// Position of the first entry with tag `tag`.
pub open spec fn tag_index(m: Seq<(u32, Value)>, tag: u32) -> Option<int>
    decreases m.len(),
{
    if m.len() == 0 {
        None
    } else {
        match tag_index(m.drop_last(), tag) {
            Some(i) => Some(i),
            None => if m.last().0 == tag {
                Some(m.len() - 1)
            } else {
                None
            },
        }
    }
}

/// Sets the value of `tag`: in place where the tag is present, else at the end.
pub open spec fn insert_field(m: Seq<(u32, Value)>, tag: u32, v: Value) -> Seq<(u32, Value)> {
    match tag_index(m, tag) {
        Some(i) => m.update(i, (tag, v)),
        None => m.push((tag, v)),
    }
}

/// No tag occurs twice.
pub open spec fn unique_tags(m: Seq<(u32, Value)>) -> bool {
    forall|i: int, j: int| 0 <= i < j < m.len() ==> m[i].0 != m[j].0
}

/// A FIX message: its fields in order of first insertion, each tag once.
#[derive(Clone, Debug, PartialEq)]
pub struct Message {
    fields: Vec<(u32, FieldValue)>,
}

impl View for Message {
    type V = Seq<(u32, Value)>;

    closed spec fn view(&self) -> Seq<(u32, Value)> {
        self.fields@.map_values(|f: (u32, FieldValue)| (f.0, f.1@))
    }
}

impl Message {
    pub open spec fn wf(&self) -> bool {
        unique_tags(self@)
    }

    /// A message with no fields.
    pub fn new() -> (r: Self)
        ensures
            r@ == Seq::<(u32, Value)>::empty(),
            r.wf(),
    {
        Message { fields: Vec::new() }
    }

    /// Number of fields.
    pub fn len(&self) -> (r: usize)
        ensures
            r as int == self@.len(),
    {
        self.fields.len()
    }

    fn position(&self, tag: u32) -> (r: Option<usize>)
        ensures
            r is Some <==> tag_index(self@, tag) is Some,
            r is Some ==> tag_index(self@, tag) == Some(r->0 as int),
            r is Some ==> r->0 < self.fields@.len() && self@[r->0 as int].0 == tag,
    {
        proof {
            lemma_tag_index_some(self@, tag);
        }
        let mut i: usize = 0;
        while i < self.fields.len()
            invariant
                i <= self@.len(),
                tag_index(self@.subrange(0, i as int), tag) is None,
            decreases self@.len() - i,
        {
            proof {
                let p = self@.subrange(0, i + 1);
                assert(p.drop_last() =~= self@.subrange(0, i as int));
            }
            if self.fields[i].0 == tag {
                proof {
                    lemma_tag_index_prefix(self@, i + 1, tag);
                }
                return Some(i);
            }
            i += 1;
        }
        assert(self@.subrange(0, i as int) =~= self@);
        None
    }

    /// Sets the value of `tag`, replacing an earlier value of that tag.
    pub fn insert(&mut self, tag: u32, value: FieldValue)
        requires
            old(self).wf(),
        ensures
            final(self)@ == insert_field(old(self)@, tag, value@),
            final(self).wf(),
    {
        let ghost v = value@;
        match self.position(tag) {
            Some(i) => {
                self.fields.remove(i);
                self.fields.insert(i, (tag, value));
                assert(self.fields@ =~= old(self).fields@.update(i as int, (tag, value)));
                assert(self@ =~= insert_field(old(self)@, tag, v));
                assert(unique_tags(self@)) by {
                    assert forall|a: int, b: int| 0 <= a < b < self@.len() implies self@[a].0
                        != self@[b].0 by {
                        assert(old(self)@[a].0 != old(self)@[b].0);
                    }
                }
            },
            None => {
                self.fields.push((tag, value));
                assert(self@ =~= insert_field(old(self)@, tag, v));
                proof {
                    lemma_tag_index_none(old(self)@, tag);
                    assert forall|a: int, b: int| 0 <= a < b < self@.len() implies self@[a].0
                        != self@[b].0 by {
                        if b < old(self)@.len() {
                            assert(old(self)@[a].0 != old(self)@[b].0);
                        } else {
                            assert(old(self)@[a].0 != tag);
                        }
                    }
                }
            },
        }
    }

    /// The value of `tag`, if the message holds it.
    pub fn get(&self, tag: u32) -> (r: Option<&FieldValue>)
        ensures
            match tag_index(self@, tag) {
                Some(i) => r is Some && r->0@ == self@[i].1,
                None => r is None,
            },
    {
        match self.position(tag) {
            Some(i) => {
                assert(self@[i as int] == (self.fields@[i as int].0, self.fields@[i as int].1@));
                Some(&self.fields[i].1)
            },
            None => None,
        }
    }

    /// Tag and value of the field at `index`, in order of insertion.
    pub fn field_at(&self, index: usize) -> (r: (u32, &FieldValue))
        requires
            index < self@.len(),
        ensures
            r.0 == self@[index as int].0,
            r.1@ == self@[index as int].1,
    {
        (self.fields[index].0, &self.fields[index].1)
    }
}

pub proof fn lemma_tag_index_prefix(m: Seq<(u32, Value)>, n: int, tag: u32)
    requires
        0 < n <= m.len(),
        tag_index(m.subrange(0, n - 1), tag) is None,
        m[n - 1].0 == tag,
    ensures
        tag_index(m, tag) == Some(n - 1),
    decreases m.len(),
{
    if n < m.len() {
        assert(m.drop_last().subrange(0, n - 1) =~= m.subrange(0, n - 1));
        lemma_tag_index_prefix(m.drop_last(), n, tag);
    } else {
        assert(m.drop_last() =~= m.subrange(0, n - 1));
    }
}

pub proof fn lemma_tag_index_none(m: Seq<(u32, Value)>, tag: u32)
    requires
        tag_index(m, tag) is None,
    ensures
        forall|i: int| 0 <= i < m.len() ==> m[i].0 != tag,
    decreases m.len(),
{
    if m.len() > 0 {
        lemma_tag_index_none(m.drop_last(), tag);
        assert forall|i: int| 0 <= i < m.len() implies m[i].0 != tag by {
            if i < m.len() - 1 {
                assert(m[i] == m.drop_last()[i]);
            }
        }
    }
}

pub proof fn lemma_tag_index_absent(m: Seq<(u32, Value)>, tag: u32)
    requires
        forall|i: int| 0 <= i < m.len() ==> m[i].0 != tag,
    ensures
        tag_index(m, tag) is None,
    decreases m.len(),
{
    if m.len() > 0 {
        lemma_tag_index_absent(m.drop_last(), tag);
    }
}

pub proof fn lemma_tag_index_some(m: Seq<(u32, Value)>, tag: u32)
    ensures
        match tag_index(m, tag) {
            Some(i) => 0 <= i < m.len() && m[i].0 == tag,
            None => true,
        },
    decreases m.len(),
{
    if m.len() > 0 {
        lemma_tag_index_some(m.drop_last(), tag);
    }
}

/// An expected and a computed checksum that differ.
#[derive(Copy, Clone, Debug, PartialEq, Eq, Structural)]
pub struct InvalidChecksum {
    pub expected: u8,
    pub actual: u8,
}

/// What can go wrong while decoding a message.
#[derive(Clone, Copy, Debug, PartialEq, Eq, Structural)]
pub enum Error {
    FieldWithoutValue(u32),
    RepeatedTag(u32),
    Eof,
    InvalidStandardHeader,
    InvalidStandardTrailer,
    InvalidChecksum(InvalidChecksum),
    Syntax,
}

} // verus!
