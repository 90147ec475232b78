use vstd::prelude::*;
use crate::checksum::{byte_sum, Checksum};
use crate::dictionary::{type_of_tag, StandardTagLookup};
use crate::message::{field_value, parse_value, BaseType, Error, Field, FieldValue, Value};
use crate::text::{find, find_byte, lemma_find_byte, parse_tag, tag_of_text};

verus! {

/// Where the field decoder stands in its input.
pub struct IterState {
    /// Index of the first byte not yet read.
    pub pos: nat,
    /// Checksum of the bytes folded in so far, modulo 256.
    pub sum: u8,
    /// Number of bytes folded into the checksum.
    pub count: nat,
    /// Length of the next length-prefixed data field.
    pub data_length: u32,
    /// The trailer has been read: no field follows.
    pub is_last: bool,
}

/// The state in which decoding starts.
pub open spec fn initial_state() -> IterState {
    IterState { pos: 0, sum: 0, count: 0, data_length: 0, is_last: false }
}

/// The outcome of reading one field.
pub enum Step {
    /// No field follows.
    End,
    /// The field could not be read.
    Fail(Error),
    /// A field with this tag and value was read; the state after it.
    Yield(u32, Value, IterState),
}

/// Ends reading a field whose value bytes are `raw`, once the decoder
/// stands at `pos` with checksum `sum` over `count` bytes.
pub open spec fn finish(
    s: IterState,
    tag: u32,
    ty: BaseType,
    raw: Seq<u8>,
    pos: nat,
    sum: u8,
    count: nat,
) -> Step {
    match parse_value(ty, raw) {
        Err(x) => Step::Fail(x),
        Ok(v) => Step::Yield(
            tag,
            v,
            IterState {
                pos,
                sum,
                count,
                data_length: match v {
                    Value::Int(n) => n as u32,
                    _ => s.data_length,
                },
                is_last: tag == 10,
            },
        ),
    }
}

/// Reads one field of `input` from state `s`, with separator `sep` and the
/// dictionary `entries`.
///
/// A field is a tag in decimal, `=`, and a value. A length-prefixed data
/// value is the next `data_length` bytes, then one byte that ends it; the
/// checksum takes the value bytes and a separator. Any other value runs to
/// the next separator, and the checksum takes the value bytes alone.
#[verifier::opaque]
pub open spec fn step(
    input: Seq<u8>,
    sep: u8,
    entries: Seq<(u32, BaseType)>,
    s: IterState,
) -> Step {
    if s.is_last || s.pos >= input.len() {
        Step::End
    } else {
        match find_byte(input, s.pos as int, 61) {
            None => Step::Fail(Error::Eof),
            Some(e) => match tag_of_text(input.subrange(s.pos as int, e)) {
                None => Step::Fail(Error::Syntax),
                Some(tag) => {
                    let ty = type_of_tag(entries, tag);
                    if ty == BaseType::Data {
                        let end = e + 1 + s.data_length;
                        if end + 1 > input.len() {
                            Step::Fail(Error::Eof)
                        } else {
                            let raw = input.subrange(e + 1, end);
                            finish(
                                s,
                                tag,
                                ty,
                                raw,
                                (end + 1) as nat,
                                ((s.sum + byte_sum(raw) + sep) % 256) as u8,
                                s.count + raw.len() + 1,
                            )
                        }
                    } else {
                        match find_byte(input, e + 1, sep) {
                            None => Step::Fail(Error::Eof),
                            Some(t) => {
                                let raw = input.subrange(e + 1, t);
                                finish(
                                    s,
                                    tag,
                                    ty,
                                    raw,
                                    (t + 1) as nat,
                                    ((s.sum + byte_sum(raw)) % 256) as u8,
                                    s.count + raw.len(),
                                )
                            },
                        }
                    }
                },
            },
        }
    }
}

/// Reading a field moves forward, and the checksum's byte count grows by
/// no more than the bytes read.
pub proof fn lemma_step_advances(
    input: Seq<u8>,
    sep: u8,
    entries: Seq<(u32, BaseType)>,
    s: IterState,
)
    requires
        s.count <= s.pos,
    ensures
        match step(input, sep, entries, s) {
            Step::Yield(_, _, n) => s.pos < n.pos <= input.len() && s.count <= n.count <= n.pos,
            _ => true,
        },
{
    reveal(step);
    if !(s.is_last || s.pos >= input.len()) {
        lemma_find_byte(input, s.pos as int, 61);
        if let Some(e) = find_byte(input, s.pos as int, 61) {
            lemma_find_byte(input, e + 1, sep);
        }
    }
}

/// Each field read leaves the checksum's byte count no smaller than before,
/// and equal to the bytes folded so far: the value bytes after `=`, with one
/// separator for a length-prefixed data value.
pub proof fn lemma_checksum_length_grows(
    input: Seq<u8>,
    sep: u8,
    entries: Seq<(u32, BaseType)>,
    s: IterState,
)
    requires
        s.count <= s.pos,
    ensures
        match step(input, sep, entries, s) {
            Step::Yield(tag, _, n) => {
                let e = find_byte(input, s.pos as int, 61)->Some_0;
                &&& s.count <= n.count
                &&& type_of_tag(entries, tag) == BaseType::Data ==> n.count == s.count + (n.pos - e - 1)
                &&& type_of_tag(entries, tag) != BaseType::Data ==> n.count == s.count + (n.pos - e - 2)
            },
            _ => true,
        },
{
    reveal(step);
    if !(s.is_last || s.pos >= input.len()) {
        lemma_find_byte(input, s.pos as int, 61);
        if let Some(e) = find_byte(input, s.pos as int, 61) {
            lemma_find_byte(input, e + 1, sep);
        }
    }
}

/// A length-prefixed data field right after an integer field with value
/// `len` takes exactly the next `len` bytes, whatever they are, and one more
/// byte that ends it.
pub proof fn lemma_data_field_exact(
    input: Seq<u8>,
    sep: u8,
    entries: Seq<(u32, BaseType)>,
    s: IterState,
    len: i64,
    e: int,
)
    requires
        s.count <= s.pos,
        0 <= len <= u32::MAX,
        step(input, sep, entries, s) matches Step::Yield(_, Value::Int(v), _) && v == len,
        ({
            let n = step(input, sep, entries, s)->Yield_2;
            &&& !n.is_last
            &&& find_byte(input, n.pos as int, 61) == Some(e)
            &&& tag_of_text(input.subrange(n.pos as int, e)) matches Some(tag) && type_of_tag(
                entries,
                tag,
            ) == BaseType::Data
            &&& e + 1 + len + 1 <= input.len()
        }),
    ensures
        ({
            let n = step(input, sep, entries, s)->Yield_2;
            step(input, sep, entries, n) matches Step::Yield(_, v, n2) && v == Value::Data(
                input.subrange(e + 1, e + 1 + len),
            ) && n2.pos == e + 1 + len + 1
        }),
{
    reveal(step);
    lemma_step_advances(input, sep, entries, s);
    let n = step(input, sep, entries, s)->Yield_2;
    assert(n.data_length == len as u32);
    lemma_find_byte(input, n.pos as int, 61);
}

/// Pulls the fields of a byte stream one at a time.
pub struct FieldIter<'a> {
    input: &'a [u8],
    pos: usize,
    checksum: Checksum,
    designator: StandardTagLookup<'a>,
    data_length: u32,
    is_last: bool,
    separator: u8,
}

impl<'a> FieldIter<'a> {
    pub closed spec fn input(&self) -> Seq<u8> {
        self.input@
    }

    pub closed spec fn separator(&self) -> u8 {
        self.separator
    }

    pub closed spec fn entries(&self) -> Seq<(u32, BaseType)> {
        self.designator.entries()
    }

    pub closed spec fn state(&self) -> IterState {
        IterState {
            pos: self.pos as nat,
            sum: self.checksum.sum(),
            count: self.checksum.count(),
            data_length: self.data_length,
            is_last: self.is_last,
        }
    }

    pub closed spec fn wf(&self) -> bool {
        &&& self.pos <= self.input@.len()
        &&& self.checksum.count() <= self.pos
    }

    pub proof fn lemma_wf(&self)
        requires
            self.wf(),
        ensures
            self.state().count <= self.state().pos <= self.input().len(),
    {
    }

    /// A decoder at the start of `input`.
    pub fn new(input: &'a [u8], designator: StandardTagLookup<'a>, separator: u8) -> (r: Self)
        ensures
            r.wf(),
            r.input() == input@,
            r.separator() == separator,
            r.entries() == designator.entries(),
            r.state() == initial_state(),
    {
        FieldIter {
            input,
            pos: 0,
            checksum: Checksum::new(),
            designator,
            data_length: 0,
            is_last: false,
            separator,
        }
    }

    /// Reads the next field: `None` where no field follows.
    pub fn next(&mut self) -> (r: Option<Result<Field, Error>>)
        requires
            old(self).wf(),
        ensures
            final(self).wf(),
            final(self).input() == old(self).input(),
            final(self).separator() == old(self).separator(),
            final(self).entries() == old(self).entries(),
            match step(old(self).input(), old(self).separator(), old(self).entries(), old(self).state()) {
                Step::End => r is None,
                Step::Fail(x) => r == Some(Err::<Field, Error>(x)),
                Step::Yield(tag, v, n) => r is Some && r->0 is Ok && final(self).state() == n && ({
                    let f = r->0->Ok_0;
                    f.tag == tag && f.value@ == v && f.checksum == n.sum && f.len == n.count
                }),
            },
    {
        let ghost s0 = self.state();
        let ghost input = self.input@;
        reveal(step);
        let sep = self.separator;
        if self.is_last || self.pos >= self.input.len() {
            return None;
        }
        proof {
            lemma_find_byte(input, s0.pos as int, 61);
        }
        let e = match find(self.input, self.pos, 61u8) {
            None => return Some(Err(Error::Eof)),
            Some(e) => e,
        };
        let tag = match parse_tag(&self.input[self.pos..e]) {
            None => return Some(Err(Error::Syntax)),
            Some(t) => t,
        };
        let datatype = self.designator.lookup(tag);
        let start = e + 1;
        let raw_end: usize;
        let next_pos: usize;
        if let BaseType::Data = datatype {
            let n = self.data_length as usize;
            if n > self.input.len() - start || n + 1 > self.input.len() - start {
                return Some(Err(Error::Eof));
            }
            raw_end = start + n;
            next_pos = raw_end + 1;
            self.checksum.roll(&self.input[start..raw_end]);
            self.checksum.roll_byte(sep);
        } else {
            proof {
                lemma_find_byte(input, start as int, sep);
            }
            raw_end = match find(self.input, start, sep) {
                None => return Some(Err(Error::Eof)),
                Some(t) => t,
            };
            next_pos = raw_end + 1;
            self.checksum.roll(&self.input[start..raw_end]);
        }
        let ghost raw = input.subrange(start as int, raw_end as int);
        assert(self.input@.subrange(start as int, raw_end as int) == raw);
        proof {
            let a = s0.sum as int + byte_sum(raw);
            assert((a % 256 + sep as int) % 256 == (a + sep as int) % 256) by (nonlinear_arith);
        }
        self.pos = next_pos;
        let value = match field_value(datatype, &self.input[start..raw_end]) {
            Err(x) => return Some(Err(x)),
            Ok(v) => v,
        };
        if let FieldValue::Int(l) = value {
            self.data_length = #[verifier::truncate] (l as u32);
        }
        if tag == 10 {
            self.is_last = true;
        }
        Some(Ok(Field {
            tag,
            value,
            checksum: self.checksum.result(),
            len: self.checksum.window_length(),
        }))
    }
}

} // verus!
