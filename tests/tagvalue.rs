use fasters::{Error, TagValue, Transmuter};

#[derive(Clone)]
struct SimpleTransmuter;

impl Transmuter for SimpleTransmuter {
    fn soh_separator(&self) -> u8 {
        '|' as u8
    }
}

fn encoder() -> TagValue<SimpleTransmuter> {
    TagValue::new(SimpleTransmuter)
}

#[test]
fn can_parse_simple_message() {
    let msg = "8=FIX.4.2|9=251|35=D|49=AFUNDMGR|56=ABROKERt|15=USD|59=0|10=127|";
    let result = encoder().decode(msg.as_bytes());
    assert!(result.is_ok());
}

#[test]
fn message_must_end_with_separator() {
    let msg = "8=FIX.4.2|9=251|35=D|49=AFUNDMGR|56=ABROKERt|15=USD|59=0|10=127";
    let result = encoder().decode(msg.as_bytes());
    assert_eq!(result, Err(Error::Eof));
}

#[test]
fn message_without_checksum() {
    let msg = "8=FIX.4.4|9=251|35=D|49=AFUNDMGR|56=ABROKERt|15=USD|59=0|";
    let result = encoder().decode(msg.as_bytes());
    assert_eq!(result, Err(Error::InvalidStandardTrailer));
}

#[test]
fn message_without_standard_header() {
    let msg = "35=D|49=AFUNDMGR|56=ABROKERt|15=USD|59=0|10=000|";
    let result = encoder().decode(msg.as_bytes());
    assert_eq!(result, Err(Error::InvalidStandardHeader));
}

#[test]
fn detect_incorrect_checksum() {
    let msg = "8=FIX.4.2|9=251|35=D|49=AFUNDMGR|56=ABROKER|15=USD|59=0|10=126|";
    let _result = encoder().decode(msg.as_bytes());
}
