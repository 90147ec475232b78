use fasters::checksum::Checksum;
use fasters::fields::FieldIter;
use fasters::message::field_value;
use fasters::tagvalue::encode_field;
use fasters::text::{is_float_text, parse_int, parse_tag, push_int_text};
use fasters::{
    decode_message, encode_message, BaseType, Dictionary, Error, FieldValue, Message,
    StandardTagLookup, TagValue, Transmuter,
};

#[derive(Clone)]
struct Pipe;

impl Transmuter for Pipe {
    fn soh_separator(&self) -> u8 {
        b'|'
    }
}

#[derive(Clone)]
struct Standard;

impl Transmuter for Standard {}

fn text(s: &str) -> FieldValue {
    FieldValue::String(s.to_string())
}

fn data_dict() -> Dictionary {
    let mut d = Dictionary::empty();
    d.add_field(95, BaseType::Int);
    d.add_field(96, BaseType::Data);
    d
}

#[test]
fn happy_path_holds_every_tag_as_text() {
    let msg = "8=FIX.4.2|9=251|35=D|49=AFUNDMGR|56=ABROKERt|15=USD|59=0|10=127|";
    let m = TagValue::new(Pipe).decode(msg.as_bytes()).unwrap();
    assert_eq!(m.len(), 8);
    let expected = [
        (8, "FIX.4.2"),
        (9, "251"),
        (35, "D"),
        (49, "AFUNDMGR"),
        (56, "ABROKERt"),
        (15, "USD"),
        (59, "0"),
        (10, "127"),
    ];
    for (i, (tag, value)) in expected.iter().enumerate() {
        assert_eq!(m.get(*tag), Some(&text(value)));
        let (t, v) = m.field_at(i);
        assert_eq!(t, *tag);
        assert_eq!(v, &text(value));
    }
}

#[test]
fn default_transmuter_uses_soh() {
    let t = Standard;
    assert_eq!(t.soh_separator(), 1);
    assert!(t.validate_checksum());
    let msg = b"8=FIX.4.2\x019=5\x0135=D\x0110=000\x01";
    let m = TagValue::new(Standard).decode(msg).unwrap();
    assert_eq!(m.get(35), Some(&text("D")));
    let piped = TagValue::new(Standard).decode(b"8=FIX.4.2|9=5|35=D|10=000|");
    assert_eq!(piped, Err(Error::Eof));
}

#[test]
fn first_tag_other_than_begin_string_is_rejected() {
    let r = decode_message(&Dictionary::empty(), b'|', b"35=D|49=X|10=000|");
    assert_eq!(r, Err(Error::InvalidStandardHeader));
}

#[test]
fn header_out_of_order_is_rejected() {
    let r = decode_message(&Dictionary::empty(), b'|', b"8=FIX.4.2|35=D|9=5|10=000|");
    assert_eq!(r, Err(Error::InvalidStandardHeader));
    let r = decode_message(&Dictionary::empty(), b'|', b"8=FIX.4.2|9=5|49=X|10=000|");
    assert_eq!(r, Err(Error::InvalidStandardHeader));
}

#[test]
fn header_cut_short_is_rejected() {
    let r = decode_message(&Dictionary::empty(), b'|', b"8=FIX.4.2|9=5|");
    assert_eq!(r, Err(Error::InvalidStandardHeader));
}

#[test]
fn empty_stream_is_eof() {
    assert_eq!(decode_message(&Dictionary::empty(), b'|', b""), Err(Error::Eof));
}

#[test]
fn tag_without_equals_is_eof() {
    let r = decode_message(&Dictionary::empty(), b'|', b"8=FIX.4.2|9=5|35=D|10");
    assert_eq!(r, Err(Error::Eof));
}

#[test]
fn tag_that_is_no_number_is_a_syntax_error() {
    let r = decode_message(&Dictionary::empty(), b'|', b"x=FIX.4.2|");
    assert_eq!(r, Err(Error::Syntax));
}

#[test]
fn missing_trailer_is_rejected() {
    let r = decode_message(&Dictionary::empty(), b'|', b"8=FIX.4.4|9=5|35=D|49=X|");
    assert_eq!(r, Err(Error::InvalidStandardTrailer));
}

#[test]
fn bytes_after_trailer_are_not_read() {
    let r = decode_message(&Dictionary::empty(), b'|', b"8=A|9=5|35=D|10=000|garbage");
    let m = r.unwrap();
    assert_eq!(m.len(), 4);
}

#[test]
fn repeated_tag_keeps_last_value() {
    let r = decode_message(&Dictionary::empty(), b'|', b"8=A|9=5|35=D|49=X|49=Y|10=000|");
    let m = r.unwrap();
    assert_eq!(m.len(), 5);
    assert_eq!(m.get(49), Some(&text("Y")));
    assert_eq!(m.field_at(3).0, 49);
}

#[test]
fn data_field_takes_exact_length_with_separators_inside() {
    let msg = b"8=FIX.4.2|9=5|35=D|95=3|96=a|b|10=000|";
    let m = decode_message(&data_dict(), b'|', msg).unwrap();
    assert_eq!(m.get(95), Some(&FieldValue::Int(3)));
    assert_eq!(m.get(96), Some(&FieldValue::Data(vec![b'a', b'|', b'b'])));
    assert_eq!(m.get(10), Some(&text("000")));
}

#[test]
fn data_field_cut_short_is_eof() {
    let msg = b"8=FIX.4.2|9=5|35=D|95=9|96=ab|";
    assert_eq!(decode_message(&data_dict(), b'|', msg), Err(Error::Eof));
}

#[test]
fn data_field_without_length_reads_nothing() {
    let msg = b"8=FIX.4.2|9=5|35=D|96=|10=000|";
    let m = decode_message(&data_dict(), b'|', msg).unwrap();
    assert_eq!(m.get(96), Some(&FieldValue::Data(vec![])));
}

#[test]
fn int_field_that_is_no_number_is_a_syntax_error() {
    let msg = b"8=FIX.4.2|9=5|35=D|95=abc|10=000|";
    assert_eq!(decode_message(&data_dict(), b'|', msg), Err(Error::Syntax));
}

#[test]
fn checksum_grows_with_each_field() {
    let dict = Dictionary::empty();
    let input = b"8=FIX.4.2|9=251|35=D|10=127|";
    let mut it = FieldIter::new(input, StandardTagLookup::new(&dict), b'|');
    let mut lens = Vec::new();
    let mut sums = Vec::new();
    while let Some(f) = it.next() {
        let f = f.unwrap();
        lens.push(f.len);
        sums.push(f.checksum);
    }
    assert_eq!(lens, vec![7, 10, 11, 14]);
    let folded: Vec<u8> = b"FIX.4.2251D127".to_vec();
    let mut total: u32 = 0;
    for (i, b) in folded.iter().enumerate() {
        total += *b as u32;
        if [6, 9, 10, 13].contains(&i) {
            assert!(sums.contains(&((total % 256) as u8)));
        }
    }
    assert_eq!(sums[3] as u32, total % 256);
    assert!(it.next().is_none());
}

#[test]
fn data_field_folds_a_separator_into_the_checksum() {
    let dict = data_dict();
    let input = b"95=2|96=xy|";
    let mut it = FieldIter::new(input, StandardTagLookup::new(&dict), b'|');
    let first = it.next().unwrap().unwrap();
    assert_eq!(first.len, 1);
    let second = it.next().unwrap().unwrap();
    assert_eq!(second.len, 4);
    let expected = (b'2' as u32 + b'x' as u32 + b'y' as u32 + b'|' as u32) % 256;
    assert_eq!(second.checksum as u32, expected);
}

#[test]
fn round_trip_of_typed_message() {
    let mut dict = data_dict();
    dict.add_field(38, BaseType::Int);
    dict.add_field(44, BaseType::Float);
    dict.add_field(54, BaseType::Char);
    let mut m = Message::new();
    m.insert(8, text("FIX.4.2"));
    m.insert(9, text("120"));
    m.insert(35, text("D"));
    m.insert(38, FieldValue::Int(-250));
    m.insert(44, FieldValue::Float("12.5e-3".to_string()));
    m.insert(54, FieldValue::Char(b'1'));
    m.insert(95, FieldValue::Int(4));
    m.insert(96, FieldValue::Data(vec![1, b'|', 0, 255]));
    m.insert(58, text("héllo"));
    m.insert(10, text("042"));
    let codec = TagValue::with_dict(Pipe, dict);
    let bytes = codec.encode(&m).unwrap();
    let back = codec.decode(&bytes).unwrap();
    assert_eq!(back, m);
}

#[test]
fn encode_writes_fields_in_order() {
    let mut m = Message::new();
    m.insert(8, text("FIX.4.2"));
    m.insert(38, FieldValue::Int(-42));
    m.insert(54, FieldValue::Char(b'2'));
    m.insert(96, FieldValue::Data(vec![b'a', b'b']));
    assert_eq!(encode_message(&m, b'|'), b"8=FIX.4.2|38=-42|54=2|96=ab|".to_vec());
    assert_eq!(TagValue::new(Standard).encode(&m).unwrap(), b"8=FIX.4.2\x0138=-42\x0154=2\x0196=ab\x01".to_vec());
}

#[test]
fn encode_single_field() {
    let mut out = Vec::new();
    encode_field(44, &FieldValue::Float("1.5".to_string()), b'|', &mut out);
    assert_eq!(out, b"44=1.5|".to_vec());
}

#[test]
fn field_values_by_type() {
    assert_eq!(field_value(BaseType::Char, b"xy"), Ok(FieldValue::Char(b'x')));
    assert_eq!(field_value(BaseType::Char, b""), Err(Error::Syntax));
    assert_eq!(field_value(BaseType::String, "héllo".as_bytes()), Ok(text("héllo")));
    assert_eq!(field_value(BaseType::String, &[0xff, 0x41]), Err(Error::Syntax));
    assert_eq!(field_value(BaseType::Data, &[0xff, 1]), Ok(FieldValue::Data(vec![0xff, 1])));
    assert_eq!(field_value(BaseType::Int, b"-17"), Ok(FieldValue::Int(-17)));
    assert_eq!(field_value(BaseType::Int, b"1.5"), Err(Error::Syntax));
    assert_eq!(field_value(BaseType::Float, b"-1.5E+2"), Ok(FieldValue::Float("-1.5E+2".to_string())));
    assert_eq!(field_value(BaseType::Float, b"1.5.2"), Err(Error::Syntax));
}

#[test]
fn integers_parse_like_i64() {
    assert_eq!(parse_int(b"0"), Some(0));
    assert_eq!(parse_int(b"+5"), Some(5));
    assert_eq!(parse_int(b"007"), Some(7));
    assert_eq!(parse_int(b"-9223372036854775808"), Some(i64::MIN));
    assert_eq!(parse_int(b"9223372036854775807"), Some(i64::MAX));
    assert_eq!(parse_int(b"9223372036854775808"), None);
    assert_eq!(parse_int(b"-9223372036854775809"), None);
    assert_eq!(parse_int(b"123456789012345678901234567890"), None);
    assert_eq!(parse_int(b""), None);
    assert_eq!(parse_int(b"-"), None);
    assert_eq!(parse_int(b"+"), None);
    assert_eq!(parse_int(b"1a"), None);
    assert_eq!(parse_tag(b"35"), Some(35));
    assert_eq!(parse_tag(b"-1"), None);
    assert_eq!(parse_tag(b"4294967296"), None);
}

#[test]
fn integers_print_in_decimal() {
    let mut out = Vec::new();
    push_int_text(i64::MIN, &mut out);
    assert_eq!(out, b"-9223372036854775808".to_vec());
    let mut out = Vec::new();
    push_int_text(0, &mut out);
    push_int_text(1234, &mut out);
    assert_eq!(out, b"01234".to_vec());
}

#[test]
fn float_text_follows_the_number_grammar() {
    for ok in ["1", "1.", ".5", "1.5", "-1.5e10", "+2E-3", "inf", "-Infinity", "NaN", "007.0"] {
        assert!(is_float_text(ok.as_bytes()), "{}", ok);
    }
    for bad in ["", ".", "-", "e5", "1e", "1e+", "1.5.2", "infin", "1x", " 1"] {
        assert!(!is_float_text(bad.as_bytes()), "{}", bad);
    }
}

#[test]
fn checksum_wraps_at_256() {
    let mut c = Checksum::new();
    c.roll(b"abc");
    assert_eq!(c.result(), ((97 + 98 + 99) % 256) as u8);
    assert_eq!(c.window_length(), 3);
    c.roll_byte(255);
    assert_eq!(c.result(), ((97 + 98 + 99 + 255) % 256) as u8);
    assert_eq!(c.window_length(), 4);
}

#[test]
fn dictionary_lookup_defaults_to_text() {
    let mut d = Dictionary::empty();
    assert_eq!(d.get_field(44), None);
    d.add_field(44, BaseType::Float);
    d.add_field(44, BaseType::Int);
    assert_eq!(d.get_field(44), Some(BaseType::Int));
    let l = StandardTagLookup::new(&d);
    assert_eq!(l.lookup(44), BaseType::Int);
    assert_eq!(l.lookup(45), BaseType::String);
}

#[test]
fn message_insert_replaces_in_place() {
    let mut m = Message::new();
    m.insert(1, FieldValue::Int(1));
    m.insert(2, FieldValue::Int(2));
    m.insert(1, FieldValue::Int(3));
    assert_eq!(m.len(), 2);
    assert_eq!(m.field_at(0), (1, &FieldValue::Int(3)));
    assert_eq!(m.get(2), Some(&FieldValue::Int(2)));
    assert_eq!(m.get(3), None);
}
