use vstd::prelude::*;
use vstd::utf8::{encode_utf8, encode_utf8_decode_utf8, encode_utf8_valid_utf8};
use crate::dictionary::type_of_tag;
use crate::fields::{initial_state, step, IterState, Step};
use crate::message::{
    insert_field, lemma_tag_index_absent, parse_value, unique_tags, BaseType, Error, Value,
};
use crate::tagvalue::{decode_rest, decode_spec, field_bytes, message_bytes, value_bytes};
use crate::text::{
    find_byte, int_text, is_digit, lemma_int_text_round_trip, lemma_nat_text, nat_text,
    float_text, tag_of_text,
};

verus! {

/// `v` is written and read back unchanged as a value of type `ty`, where
/// `prev` is the value of the field before it.
pub open spec fn value_fits(v: Value, ty: BaseType, sep: u8, prev: Option<Value>) -> bool {
    match v {
        Value::Int(i) => ty == BaseType::Int && !int_text(i as int).contains(sep),
        Value::Float(t) => ty == BaseType::Float && float_text(encode_utf8(t)) && !encode_utf8(
            t,
        ).contains(sep),
        Value::Char(c) => ty == BaseType::Char && c != sep,
        Value::Text(t) => ty == BaseType::String && !encode_utf8(t).contains(sep),
        Value::Data(d) => ty == BaseType::Data && d.len() <= u32::MAX && (prev matches Some(
            Value::Int(n),
        ) && n == d.len()),
    }
}

/// A message that can go on the wire: the header tags 8, 9 and 35 first,
/// tag 10 last and nowhere else, each tag once, and every value of the type
/// the dictionary gives its tag, free of the separator, a data value right
/// after the integer that gives its length.
pub open spec fn wire_ready(m: Seq<(u32, Value)>, sep: u8, entries: Seq<(u32, BaseType)>) -> bool {
    &&& m.len() >= 4
    &&& m[0].0 == 8 && m[1].0 == 9 && m[2].0 == 35
    &&& m[m.len() - 1].0 == 10
    &&& forall|i: int| 0 <= i < m.len() - 1 ==> (#[trigger] m[i]).0 != 10
    &&& unique_tags(m)
    &&& forall|i: int|
        0 <= i < m.len() ==> value_fits(
            (#[trigger] m[i]).1,
            type_of_tag(entries, m[i].0),
            sep,
            if i > 0 {
                Some(m[i - 1].1)
            } else {
                None
            },
        )
}

proof fn lemma_bytes_concat(a: Seq<(u32, Value)>, b: Seq<(u32, Value)>, sep: u8)
    ensures
        message_bytes(a + b, sep) == message_bytes(a, sep) + message_bytes(b, sep),
    decreases b.len(),
{
    if b.len() == 0 {
        assert(a + b =~= a);
        assert(message_bytes(a, sep) + Seq::empty() =~= message_bytes(a, sep));
    } else {
        lemma_bytes_concat(a, b.drop_last(), sep);
        assert((a + b).drop_last() =~= a + b.drop_last());
        let f = field_bytes(b.last().0, b.last().1, sep);
        assert(message_bytes(a, sep) + message_bytes(b.drop_last(), sep) + f =~= message_bytes(
            a,
            sep,
        ) + (message_bytes(b.drop_last(), sep) + f));
    }
}

proof fn lemma_find_byte_at(s: Seq<u8>, from: int, k: int, b: u8)
    requires
        0 <= from <= k < s.len(),
        s[k] == b,
        forall|j: int| from <= j < k ==> s[j] != b,
    ensures
        find_byte(s, from, b) == Some(k),
    decreases k - from,
{
    if from < k {
        lemma_find_byte_at(s, from + 1, k, b);
    }
}

proof fn lemma_insert_push(m: Seq<(u32, Value)>, k: int)
    requires
        unique_tags(m),
        0 <= k < m.len(),
    ensures
        insert_field(m.subrange(0, k), m[k].0, m[k].1) == m.subrange(0, k + 1),
{
    lemma_tag_index_absent(m.subrange(0, k), m[k].0);
    assert(m.subrange(0, k).push((m[k].0, m[k].1)) =~= m.subrange(0, k + 1));
}

proof fn lemma_value_parse(v: Value, ty: BaseType, sep: u8, prev: Option<Value>)
    requires
        value_fits(v, ty, sep, prev),
        ty != BaseType::Data,
    ensures
        parse_value(ty, value_bytes(v)) == Ok::<Value, Error>(v),
        !value_bytes(v).contains(sep),
{
    match v {
        Value::Int(i) => {
            lemma_int_text_round_trip(i);
        },
        Value::Float(c) => {
            encode_utf8_valid_utf8(c);
            encode_utf8_decode_utf8(c);
        },
        Value::Text(c) => {
            encode_utf8_valid_utf8(c);
            encode_utf8_decode_utf8(c);
        },
        Value::Char(c) => {
            assert(value_bytes(v) =~= seq![c]);
            if value_bytes(v).contains(sep) {
                let j = choose|j: int| 0 <= j < value_bytes(v).len() && value_bytes(v)[j] == sep;
                assert(j == 0);
            }
        },
        _ => {},
    }
}

/// The bytes of a field, found at `off` in `input`, are read back as that
/// field.
proof fn lemma_read_field(
    input: Seq<u8>,
    off: int,
    tag: u32,
    v: Value,
    sep: u8,
    entries: Seq<(u32, BaseType)>,
    prev: Option<Value>,
    s: IterState,
)
    requires
        0 <= off,
        off + field_bytes(tag, v, sep).len() <= input.len(),
        forall|j: int|
            0 <= j < field_bytes(tag, v, sep).len() ==> input[off + j] == #[trigger] field_bytes(
                tag,
                v,
                sep,
            )[j],
        s.pos == off,
        !s.is_last,
        value_fits(v, type_of_tag(entries, tag), sep, prev),
        v matches Value::Data(d) ==> s.data_length == d.len(),
    ensures
        step(input, sep, entries, s) matches Step::Yield(t2, v2, n) && t2 == tag && v2 == v
            && n.pos == off + field_bytes(tag, v, sep).len() && n.is_last == (tag == 10) && (
        v matches Value::Int(i) ==> n.data_length == i as u32),
{
    reveal(step);
    let ty = type_of_tag(entries, tag);
    let f = field_bytes(tag, v, sep);
    let t = nat_text(tag as nat);
    let vb = value_bytes(v);
    lemma_nat_text(tag as nat);
    lemma_int_text_round_trip(tag as i64);
    assert(f =~= t + seq![61u8] + vb + seq![sep]);
    let e: int = off + t.len() as int;
    assert forall|j: int| off <= j < e implies input[j] != 61 by {
        assert(input[off + (j - off)] == f[j - off]);
        assert(is_digit(t[j - off]));
    }
    assert(input[off + t.len() as int] == f[t.len() as int]);
    lemma_find_byte_at(input, off, e, 61);
    assert(input.subrange(off, e) =~= t) by {
        assert forall|j: int| 0 <= j < t.len() implies input.subrange(off, e)[j] == t[j] by {
            assert(input[off + j] == f[j]);
        }
    }
    assert(tag_of_text(t) == Some(tag));
    if ty == BaseType::Data {
        let d = v->Data_0;
        assert(input.subrange(e + 1, e + 1 + d.len() as int) =~= d) by {
            assert forall|j: int| 0 <= j < d.len() implies input.subrange(
                e + 1,
                e + 1 + d.len() as int,
            )[j] == d[j] by {
                assert(input[off + (t.len() + 1 + j)] == f[t.len() + 1 + j]);
            }
        }
    } else {
        lemma_value_parse(v, ty, sep, prev);
        let tt: int = e + 1 + vb.len();
        assert(input[off + (t.len() + 1 + vb.len())] == f[t.len() + 1 + vb.len() as int]);
        assert forall|j: int| e + 1 <= j < tt implies input[j] != sep by {
            assert(input[off + (j - off)] == f[j - off]);
            assert(f[j - off] == vb[j - e - 1]);
            if input[j] == sep {
                assert(vb.contains(sep));
            }
        }
        lemma_find_byte_at(input, e + 1, tt, sep);
        assert(input.subrange(e + 1, tt) =~= vb) by {
            assert forall|j: int| 0 <= j < vb.len() implies input.subrange(e + 1, tt)[j]
                == vb[j] by {
                assert(input[off + (t.len() + 1 + j)] == f[t.len() + 1 + j]);
            }
        }
    }
}

/// The bytes of a message split at field `k`.
proof fn lemma_split_at(m: Seq<(u32, Value)>, sep: u8, k: int)
    requires
        0 <= k < m.len(),
    ensures
        message_bytes(m.subrange(0, k + 1), sep) == message_bytes(m.subrange(0, k), sep)
            + field_bytes(m[k].0, m[k].1, sep),
        message_bytes(m, sep).len() >= message_bytes(m.subrange(0, k + 1), sep).len(),
        forall|j: int|
            0 <= j < message_bytes(m.subrange(0, k + 1), sep).len() ==> message_bytes(m, sep)[j]
                == #[trigger] message_bytes(m.subrange(0, k + 1), sep)[j],
{
    let pre = m.subrange(0, k + 1);
    let post = m.subrange(k + 1, m.len() as int);
    assert(pre.drop_last() =~= m.subrange(0, k));
    lemma_bytes_concat(pre, post, sep);
    assert(pre + post =~= m);
}

proof fn lemma_field(
    m: Seq<(u32, Value)>,
    sep: u8,
    entries: Seq<(u32, BaseType)>,
    k: int,
    s: IterState,
)
    requires
        wire_ready(m, sep, entries),
        0 <= k < m.len(),
        s.pos == message_bytes(m.subrange(0, k), sep).len(),
        !s.is_last,
        k > 0 ==> (m[k - 1].1 matches Value::Int(n) ==> s.data_length == n as u32),
    ensures
        step(message_bytes(m, sep), sep, entries, s) matches Step::Yield(tag, v, n) && tag
            == m[k].0 && v == m[k].1 && n.pos == message_bytes(m.subrange(0, k + 1), sep).len()
            && n.pos <= message_bytes(m, sep).len() && n.is_last == (tag == 10) && (
        v matches Value::Int(i) ==> n.data_length == i as u32),
{
    let input = message_bytes(m, sep);
    let prev = if k > 0 { Some(m[k - 1].1) } else { None };
    lemma_split_at(m, sep, k);
    let off = message_bytes(m.subrange(0, k), sep).len() as int;
    let f = field_bytes(m[k].0, m[k].1, sep);
    assert forall|j: int| 0 <= j < f.len() implies input[off + j] == #[trigger] f[j] by {
        assert(message_bytes(m.subrange(0, k + 1), sep)[off + j] == f[j]);
    }
    assert(value_fits(m[k].1, type_of_tag(entries, m[k].0), sep, prev));
    lemma_read_field(input, off, m[k].0, m[k].1, sep, entries, prev, s);
}

proof fn lemma_rest(
    m: Seq<(u32, Value)>,
    sep: u8,
    entries: Seq<(u32, BaseType)>,
    k: int,
    s: IterState,
)
    requires
        wire_ready(m, sep, entries),
        3 <= k <= m.len(),
        s.pos == message_bytes(m.subrange(0, k), sep).len(),
        s.is_last == (m[k - 1].0 == 10),
        m[k - 1].1 matches Value::Int(n) ==> s.data_length == n as u32,
    ensures
        decode_rest(message_bytes(m, sep), sep, entries, s, m.subrange(0, k), m[k - 1].0) == Ok::<Seq<(u32, Value)>, Error>(m),
    decreases m.len() - k,
{
    reveal(step);
    let input = message_bytes(m, sep);
    if k == m.len() {
        assert(m.subrange(0, k) =~= m);
        assert(step(input, sep, entries, s) is End);
    } else {
        assert(m[k - 1].0 != 10);
        lemma_field(m, sep, entries, k, s);
        let n = step(input, sep, entries, s)->Yield_2;
        lemma_split_at(m, sep, k);
        assert(s.pos < n.pos <= input.len());
        lemma_insert_push(m, k);
        lemma_rest(m, sep, entries, k + 1, n);
    }
}

/// Decoding what encoding a message gives yields that message back, for a
/// message ready for the wire.
pub proof fn lemma_round_trip(m: Seq<(u32, Value)>, sep: u8, entries: Seq<(u32, BaseType)>)
    requires
        wire_ready(m, sep, entries),
    ensures
        decode_spec(message_bytes(m, sep), sep, entries) == Ok::<Seq<(u32, Value)>, Error>(m),
{
    let input = message_bytes(m, sep);
    let s0 = initial_state();
    assert(m.subrange(0, 0) =~= Seq::<(u32, Value)>::empty());
    lemma_field(m, sep, entries, 0, s0);
    let s1 = step(input, sep, entries, s0)->Yield_2;
    lemma_field(m, sep, entries, 1, s1);
    let s2 = step(input, sep, entries, s1)->Yield_2;
    lemma_field(m, sep, entries, 2, s2);
    let s3 = step(input, sep, entries, s2)->Yield_2;
    lemma_insert_push(m, 0);
    lemma_insert_push(m, 1);
    lemma_insert_push(m, 2);
    lemma_rest(m, sep, entries, 3, s3);
}

} // verus!
