use kademlia_dht::bencode::BencodeObject;
use kademlia_dht::err::BencodeError;

#[test]
fn parse_byte_string() {
    let obj = BencodeObject::parse(b"4:asdf").unwrap();
    match &obj {
        BencodeObject::Bytes(b) => assert_eq!(b.as_slice(), b"asdf"),
        _ => panic!("expected bytes"),
    }
    assert_eq!(obj.into_bytes(), b"4:asdf".to_vec());
}

#[test]
fn parse_integer_round_trip() {
    let obj = BencodeObject::parse(b"i-12345e").unwrap();
    assert!(matches!(obj, BencodeObject::Integer(-12345)));
    assert_eq!(obj.into_bytes(), b"i-12345e".to_vec());
    let zero = BencodeObject::parse(b"i0e").unwrap();
    assert!(matches!(zero, BencodeObject::Integer(0)));
    assert_eq!(zero.into_bytes(), b"i0e".to_vec());
}

#[test]
fn parse_list_round_trip() {
    let obj = BencodeObject::parse(b"li-12345e4:asdfe").unwrap();
    match &obj {
        BencodeObject::List(items) => {
            assert_eq!(items.len(), 2);
            assert!(matches!(items[0], BencodeObject::Integer(-12345)));
        }
        _ => panic!("expected list"),
    }
    assert_eq!(obj.into_bytes(), b"li-12345e4:asdfe".to_vec());
}

#[test]
fn parse_dict_round_trip() {
    let obj = BencodeObject::parse(b"d1:a1:a2:bb2:bbe").unwrap();
    match &obj {
        BencodeObject::Dict(entries) => {
            assert_eq!(entries.len(), 2);
            assert_eq!(entries[0].0.as_slice(), b"a");
            assert_eq!(entries[1].0.as_slice(), b"bb");
        }
        _ => panic!("expected dict"),
    }
    assert_eq!(obj.into_bytes(), b"d1:a1:a2:bb2:bbe".to_vec());
}

#[test]
fn parse_errors() {
    assert!(matches!(
        BencodeObject::parse(b""),
        Err(BencodeError::UnexpectedEndOfInput)
    ));
    assert!(matches!(
        BencodeObject::parse(b"i12"),
        Err(BencodeError::UnexpectedEndOfInput)
    ));
    assert!(matches!(
        BencodeObject::parse(b"i-12345fe"),
        Err(BencodeError::UnexpectedCharacter(_))
    ));
    assert!(matches!(
        BencodeObject::parse(b"i--1e"),
        Err(BencodeError::IntError)
    ));
    assert!(matches!(
        BencodeObject::parse(b"i99999999999999999999e"),
        Err(BencodeError::IntError)
    ));
    assert!(matches!(
        BencodeObject::parse(b"dlee"),
        Err(BencodeError::DictionaryKeyNotString)
    ));
    assert!(matches!(
        BencodeObject::parse(b"5:ab"),
        Err(BencodeError::UnexpectedEndOfInput)
    ));
    assert!(matches!(
        BencodeObject::parse(b"4:asdfx"),
        Err(BencodeError::UnexpectedCharacter(6))
    ));
    assert!(matches!(
        BencodeObject::parse(b"x"),
        Err(BencodeError::UnexpectedCharacter(0))
    ));
}

#[test]
fn duplicate_dict_key_replaces_value() {
    let obj = BencodeObject::parse(b"d1:ai1e1:ai2ee").unwrap();
    match &obj {
        BencodeObject::Dict(entries) => {
            assert_eq!(entries.len(), 1);
            assert!(matches!(entries[0].1, BencodeObject::Integer(2)));
        }
        _ => panic!("expected dict"),
    }
}

#[test]
fn description_strings() {
    assert_eq!(
        BencodeError::UnexpectedEndOfInput.description(),
        "Unexpected end of input"
    );
    assert_eq!(
        BencodeError::DictionaryKeyNotString.description(),
        "Dictionary key was not a string"
    );
    assert_eq!(
        BencodeError::UnexpectedCharacter(3).description(),
        "Unexpected character"
    );
}

#[test]
fn encode_nested() {
    let inner = BencodeObject::List(vec![
        BencodeObject::Integer(1),
        BencodeObject::Bytes(b"2".to_vec()),
        BencodeObject::Integer(3),
    ]);
    assert_eq!(inner.into_bytes(), b"li1e1:2i3ee".to_vec());
    let dict = BencodeObject::Dict(vec![
        (b"k".to_vec(), BencodeObject::Integer(42)),
    ]);
    assert_eq!(dict.into_bytes(), b"d1:ki42ee".to_vec());
}
