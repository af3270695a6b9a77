//! The wire format, and text.

use mlkit_ink::error::{Error, ErrorView};
use mlkit_ink::proto::{for_each_field, Reader, Value, ValueView, Visitor};
use mlkit_ink::text::{
    chars_less, chars_of, lines_of, parse_number, push_dec, push_dec_int, push_dec_list,
    push_dec_wide, split_chars, text_of, trim_chars,
};

fn read(data: &[u8]) -> Result<Vec<u32>, Error> {
    let mut reader = Reader::new(data);
    let mut fields = Vec::new();
    while let Some((field, _)) = reader.next_field()? {
        fields.push(field);
    }
    assert!(reader.is_done());
    Ok(fields)
}

fn format(data: &[u8]) -> String {
    match read(data) {
        Err(Error::Format(text)) => text,
        _ => panic!("expected a format error"),
    }
}

#[test]
fn fields_come_in_wire_order() {
    let data = [
        0x08, 0x96, 0x01, 0x15, 0, 0, 0x80, 0x3f, 0x22, 2, b'h', b'i', 0x29, 1, 2, 3, 4, 5, 6, 7, 8,
    ];
    assert_eq!(read(&data).unwrap(), [1, 2, 4, 5]);
    let mut reader = Reader::new(&data);
    let (_, varint) = reader.next_field().unwrap().unwrap();
    assert_eq!(varint.as_u64().unwrap(), 150);
    assert!(varint.as_bool().unwrap());
    assert_eq!(varint.as_f32().unwrap().bits, 150);
    assert!(varint.as_f64().is_err());
    assert!(varint.as_bytes().is_err() && varint.as_str().is_err());
    let (_, single) = reader.next_field().unwrap().unwrap();
    assert_eq!(single.as_f32().unwrap().bits, 1.0f32.to_bits());
    assert_eq!(single.as_f64().unwrap().bits, 1.0f64.to_bits());
    assert!(single.as_u64().is_err() && single.as_bool().is_err());
    let (_, bytes) = reader.next_field().unwrap().unwrap();
    assert_eq!(bytes.as_bytes().unwrap(), b"hi");
    assert_eq!(bytes.as_str().unwrap(), "hi");
    let (_, double) = reader.next_field().unwrap().unwrap();
    assert!(matches!(double, Value::Fixed64(0x0807_0605_0403_0201)));
    assert_eq!(double.as_f64().unwrap().bits, 0x0807_0605_0403_0201);
    assert!(double.as_f32().is_err() && bytes.as_f32().is_err());
    assert_eq!(double, Value::Fixed64(0x0807_0605_0403_0201));
    assert!(reader.next_field().unwrap().is_none());
}

#[test]
fn floats_may_be_stored_as_varints() {
    for x in [0.0f32, 1.0, -2.5, f32::MAX, f32::INFINITY] {
        let bits = x.to_bits();
        for value in [
            Value::Fixed32(bits),
            Value::Varint(u64::from(bits)),
            Value::Varint(u64::from(bits) | 0xabcd_0000_0000),
        ] {
            assert_eq!(value.as_f32().unwrap().bits, bits);
        }
    }
    assert_eq!(
        Value::Fixed64(1).as_f32(),
        Err(Error::Format(
            "expected a fixed32 float, found Fixed64(1)".to_string()
        ))
    );
}

/// Notes the fields it is handed, and refuses one of them.
struct Noting {
    seen: Vec<u32>,
    refuse: u32,
}

impl Visitor for Noting {
    type State = ();

    fn state(&self) {
        unreachable!("ghost")
    }

    fn step(_: (), _: u32, _: ValueView) -> Result<(), ErrorView> {
        unreachable!("ghost")
    }

    fn refused(_: (), _: u32, _: ValueView) {
        unreachable!("ghost")
    }

    fn visit(&mut self, field: u32, _: Value<'_>) -> Result<(), Error> {
        self.seen.push(field);
        if field == self.refuse {
            return Err(Error::Invalid("refused".to_string()));
        }
        Ok(())
    }
}

#[test]
fn a_walk_ends_at_the_first_refused_or_malformed_field() {
    let walk = |data: &[u8], refuse: u32| {
        let mut noting = Noting { seen: vec![], refuse };
        let result = for_each_field(data, &mut noting);
        (noting.seen, result)
    };
    let data = [0x08, 1, 0x10, 2, 0x18, 3];
    assert_eq!(walk(&data, 9), (vec![1, 2, 3], Ok(())));
    let refused = Err(Error::Invalid("refused".to_string()));
    assert_eq!(walk(&data, 2), (vec![1, 2], refused.clone()));
    // Two fields and a cut one: the two are seen, and nothing else.
    let cut = [0x08, 1, 0x10, 2, 0x18];
    let truncated = Err(Error::Format("truncated varint".to_string()));
    assert_eq!(walk(&cut, 9), (vec![1, 2], truncated));
    // A refused field is reported before a malformed one behind it.
    assert_eq!(walk(&cut, 1), (vec![1], refused));
}

#[test]
fn damaged_messages_are_named() {
    assert_eq!(format(&[0x80]), "truncated varint");
    assert_eq!(format(&[0x08, 0xff]), "truncated varint");
    assert_eq!(
        format(&[0x08, 128, 128, 128, 128, 128, 128, 128, 128, 128, 128, 0]),
        "varint longer than 10 bytes"
    );
    assert_eq!(format(&[0x00, 0x00]), "protobuf field number 0");
    assert_eq!(
        format(&[128, 128, 128, 128, 128, 4, 0]),
        "protobuf field number out of range"
    );
    assert_eq!(
        format(&[0x0d, 1, 2, 3]),
        "truncated protobuf field at byte 1"
    );
    assert_eq!(
        format(&[0x0a, 255, 255, 255, 255, 255, 255, 255, 255, 255, 1]),
        "protobuf length overflow"
    );
    assert_eq!(
        read(&[0x0b]),
        Err(Error::Unsupported("protobuf wire type 3".to_string()))
    );
    let bad = [0x0a, 1, 0xff];
    let (_, value) = Reader::new(&bad).next_field().unwrap().unwrap();
    assert_eq!(
        value.as_str(),
        Err(Error::Format(
            "protobuf string field is not valid UTF-8".to_string()
        ))
    );
    assert_eq!(
        value.as_u64(),
        Err(Error::Format(
            "expected a varint, found Bytes([255])".to_string()
        ))
    );
    assert_eq!(
        Value::Varint(7).as_bytes(),
        Err(Error::Format(
            "expected a length-delimited field, found Varint(7)".to_string()
        ))
    );
}

#[test]
fn pieces_join_to_the_text() {
    let text = chars_of("a--b-");
    let pieces = split_chars(&text, '-');
    let texts: Vec<String> = pieces.iter().map(|p| text_of(p)).collect();
    assert_eq!(texts, ["a", "", "b", ""]);
    assert_eq!(texts.join("-"), "a--b-");
    assert_eq!(split_chars(&[], '-').len(), 1);
}

#[test]
fn lines_numbers_and_white_space() {
    let lines: Vec<String> = lines_of(&chars_of("a\r\nb\n\nc")).iter().map(|l| text_of(l)).collect();
    assert_eq!(lines, ["a", "b", "", "c"]);
    let number = |text: &str| parse_number(&chars_of(text));
    assert_eq!(number("4294967295"), Some(u32::MAX));
    assert_eq!(number("4294967296"), None);
    assert_eq!(number("+7"), Some(7));
    assert_eq!(number("-7"), None);
    assert_eq!(number(""), None);
    assert_eq!(text_of(&trim_chars(&chars_of("\u{2003} x y\t"))), "x y");
    let mut text = String::new();
    push_dec(&mut text, u64::MAX);
    push_dec_int(&mut text, i64::MIN);
    push_dec_list(&mut text, &[1, 20]);
    push_dec_wide(&mut text, u128::MAX);
    assert_eq!(text, format!("{}{}{:?}{}", u64::MAX, i64::MIN, [1, 20], u128::MAX));
    assert!(chars_less(&['a'], &['a', 'b']) && chars_less(&['Z'], &['a']));
    assert!(!chars_less(&['a'], &['a']));
}
