use std::collections::BTreeMap;
use std::str::{self, FromStr};

use nom::branch::alt;
use nom::bytes::complete::take;
use nom::character::complete::{char, digit1, i64 as parse_i64};
use nom::combinator::{self, map_res};
use nom::multi::{fold_many0, many0};
use nom::sequence::{delimited, pair, terminated};
use nom::IResult;

use torrent::bencode::nom::decode;
use torrent::bencode::{plain, DecodeError, Decoder, Value};

fn dict(entries: Vec<(&str, Value)>) -> Value {
    Value::Dict(
        entries
            .into_iter()
            .map(|(key, value)| (key.to_string(), value))
            .collect(),
    )
}

#[test]
fn decode_errors_parse_string() {
    let bencoded = b"5hi:hellounparsed";
    assert!(decode(bencoded).is_err());
}

#[test]
fn decode_parses_string() {
    let bencoded = b"5:hellounparsed";

    let (remaining, hello) = decode(bencoded).unwrap();
    assert_eq!(hello, Value::String("hello".to_string()));
    assert_eq!("unparsed", str::from_utf8(remaining).unwrap());
}

#[test]
fn decode_parses_integer() {
    let bencoded = b"i-326eunparsed";

    let (remaining, num) = decode(bencoded).unwrap();
    assert_eq!(num, Value::Int(-326));
    assert_eq!("unparsed", str::from_utf8(remaining).unwrap());
}

#[test]
fn decode_errors_parse_integer() {
    let bencoded = b"i3a3eunparsed";
    assert!(decode(bencoded).is_err());
}

#[test]
fn decode_parses_list() {
    let bencoded = b"l5:helloi52eeunparsed";

    let (remaining, list) = decode(bencoded).unwrap();
    assert_eq!(str::from_utf8(remaining).unwrap(), "unparsed");
    assert_eq!(
        list,
        Value::List(vec![Value::String("hello".to_string()), Value::Int(52)])
    );
}

#[test]
fn decode_list_error_invalid_integer_elem() {
    let bencoded = b"l5:helloi5h2ee";
    assert!(decode(bencoded).is_err());
}

#[test]
fn decode_parses_dictionary() {
    let bencoded = b"d5:applei-23e3:foo3:bar5:helloi52eeunparsed";
    let (remaining, value) = decode(bencoded).unwrap();
    assert_eq!(str::from_utf8(remaining).unwrap(), "unparsed");

    assert_eq!(
        value,
        dict(vec![
            ("apple", Value::Int(-23)),
            ("foo", Value::String("bar".to_string())),
            ("hello", Value::Int(52)),
        ])
    );
}

#[test]
fn decode_dictionary_error_incomplete_key_val_pair() {
    let bencoded = b"d5:applee";
    assert!(decode(bencoded).is_err());
}

#[test]
fn decode_string() {
    let bencoded = b"5:hellounparsed";

    let (remaining, val) = plain::decode(bencoded).unwrap();
    assert_eq!(str::from_utf8(remaining).unwrap(), "unparsed");
    assert_eq!(val, Value::String("hello".to_string()));
}

#[test]
fn decode_int() {
    let bencoded = b"i-326eunparsed";

    let (remaining, val) = plain::decode(bencoded).unwrap();
    assert_eq!(str::from_utf8(remaining).unwrap(), "unparsed");
    assert_eq!(val, Value::Int(-326));
}

#[test]
fn decode_list() {
    let bencoded = b"l5:helloi52eeunparsed";

    let (remaining, val) = plain::decode(bencoded).unwrap();
    assert_eq!(str::from_utf8(remaining).unwrap(), "unparsed");
    assert_eq!(
        val,
        Value::List(vec![Value::String("hello".to_string()), Value::Int(52)])
    );
}

#[test]
fn decode_dictionary() {
    let bencoded = b"d5:applei-23e3:foo3:bar5:helloi52eeunparsed";
    let (remaining, val) = plain::decode(bencoded).unwrap();
    assert_eq!(str::from_utf8(remaining).unwrap(), "unparsed");

    assert_eq!(
        val,
        dict(vec![
            ("apple", Value::Int(-23)),
            ("foo", Value::String("bar".to_string())),
            ("hello", Value::Int(52)),
        ])
    );
}

#[test]
fn keys_are_sorted_and_the_last_value_of_a_key_wins() {
    for decoder in [Decoder::Nom, Decoder::Plain] {
        let (rest, value) = decoder.decode(b"d1:bi1e2:aai2e1:bi3e1:ai4ee").unwrap();
        assert!(rest.is_empty());
        assert_eq!(
            value,
            dict(vec![
                ("a", Value::Int(4)),
                ("aa", Value::Int(2)),
                ("b", Value::Int(3)),
            ])
        );
    }
}

#[test]
fn ill_formed_text_is_replaced() {
    let expected = Value::String("a\u{fffd}b".to_string());
    assert_eq!(Decoder::Nom.decode(b"3:a\xffb").unwrap().1, expected);
    assert_eq!(Decoder::Plain.decode(b"3:a\xffb").unwrap().1, expected);
}

#[test]
fn text_beyond_ascii_is_kept() {
    let expected = Value::String("é".to_string());
    assert_eq!(Decoder::Nom.decode("2:é".as_bytes()).unwrap().1, expected);
    assert_eq!(Decoder::Plain.decode("2:é".as_bytes()).unwrap().1, expected);
}

#[test]
fn nom_tells_where_a_dictionary_ends() {
    let error = |input: &[u8]| decode(input).unwrap_err();
    assert_eq!(error(b""), DecodeError::Unexpected { at: 0 });
    assert_eq!(error(b"x"), DecodeError::Unexpected { at: 0 });
    assert_eq!(error(b"l5:helloi5h2ee"), DecodeError::Unexpected { at: 0 });
    assert_eq!(error(b"d5:applee"), DecodeError::Unexpected { at: 1 });
    assert_eq!(error(b"d1:ai1e1:bx"), DecodeError::Unexpected { at: 7 });
    assert_eq!(error(b"d1:ai1e"), DecodeError::Unexpected { at: 7 });
}

#[test]
fn nom_takes_empty_lists_and_dictionaries() {
    assert_eq!(decode(b"lex").unwrap(), (&b"x"[..], Value::List(vec![])));
    assert_eq!(decode(b"dex").unwrap(), (&b"x"[..], Value::Dict(vec![])));
}

#[test]
fn plain_tells_what_is_wrong() {
    let error = |input: &[u8]| plain::decode(input).unwrap_err();
    assert_eq!(error(b""), DecodeError::Empty);
    assert_eq!(error(b"5hello"), DecodeError::MissingColon);
    assert_eq!(error(b"5hi:hello"), DecodeError::InvalidLength);
    assert_eq!(
        error(b"99999999999999999999999:a"),
        DecodeError::InvalidLength
    );
    assert_eq!(error(b"i12"), DecodeError::MissingEnd);
    assert_eq!(error(b"ie"), DecodeError::InvalidInteger);
    assert_eq!(error(b"i1x2e"), DecodeError::InvalidInteger);
    assert_eq!(
        error(b"i9223372036854775808e"),
        DecodeError::InvalidInteger
    );
    assert_eq!(error(b"l1:a"), DecodeError::Empty);
    assert_eq!(error(b"d1:a"), DecodeError::Empty);
}

#[test]
fn plain_does_not_support_everything() {
    for input in [&b"le"[..], b"de", b"5:hi", b"x", b"di1ei2ee"] {
        assert!(!Decoder::Plain.accepts(input));
        assert!(Decoder::Nom.accepts(input));
    }
    for input in [&b"l1:ae"[..], b"d1:ai1ee", b"2:hi", b"i1", b""] {
        assert!(Decoder::Plain.accepts(input));
    }
}

#[test]
fn integers_reach_their_limits() {
    for decoder in [Decoder::Nom, Decoder::Plain] {
        let int = |input: &[u8]| decoder.decode(input).map(|(_, value)| value);
        assert_eq!(int(b"i9223372036854775807e"), Ok(Value::Int(i64::MAX)));
        assert_eq!(int(b"i-9223372036854775808e"), Ok(Value::Int(i64::MIN)));
        assert_eq!(int(b"i+7e"), Ok(Value::Int(7)));
        assert_eq!(int(b"i007e"), Ok(Value::Int(7)));
        assert!(int(b"i-9223372036854775809e").is_err());
    }
}

#[test]
fn what_follows_does_not_matter() {
    for input in [&b"i-7e"[..], b"3:foo", b"l3:fooi1ee", b"d1:al2:xxee"] {
        let (rest, value) = decode(input).unwrap();
        assert!(rest.is_empty());
        for more in [&b"e"[..], b"i1e", b"7:", b"\xff"] {
            let longer = [input, more].concat();
            let (rest, same) = decode(&longer).unwrap();
            assert_eq!(rest, more);
            assert_eq!(same, value);
        }
    }
}

#[test]
fn values_depend_on_their_own_bytes() {
    for decoder in [Decoder::Nom, Decoder::Plain] {
        for input in [&b"i-7exyz"[..], b"3:fooe", b"l3:fooi1ee9", b"d1:al2:xxee:"] {
            let (rest, value) = decoder.decode(input).unwrap();
            let taken = &input[..input.len() - rest.len()];
            assert_eq!(decoder.decode(taken).unwrap(), (&b""[..], value));
        }
    }
}

fn benc(value: &Value) -> Vec<u8> {
    let text = |text: &str| format!("{}:{}", text.len(), text).into_bytes();
    match value {
        Value::Int(n) => format!("i{}e", n).into_bytes(),
        Value::String(s) => text(s),
        Value::List(items) => {
            let items: Vec<u8> = items.iter().flat_map(benc).collect();
            [&b"l"[..], &items, b"e"].concat()
        }
        Value::Dict(entries) => {
            let entries: Vec<u8> = entries
                .iter()
                .flat_map(|(key, value)| [text(key), benc(value)].concat())
                .collect();
            [&b"d"[..], &entries, b"e"].concat()
        }
    }
}

#[test]
fn values_are_read_back() {
    let filled = || {
        vec![
            Value::Int(0),
            Value::Int(-1),
            Value::Int(i64::MAX),
            Value::Int(i64::MIN),
            Value::String(String::new()),
            Value::String("zwölf €".to_string()),
            Value::List(vec![Value::Int(-20), Value::List(vec![Value::Int(3)])]),
            dict(vec![
                ("", Value::Int(7)),
                ("a", Value::List(vec![Value::String("e".to_string())])),
                ("ä", dict(vec![("k", Value::Int(-5))])),
            ]),
        ]
    };
    let mut all = filled();
    all.push(Value::List(vec![]));
    all.push(dict(vec![("x", Value::Dict(vec![])), ("y", Value::List(vec![]))]));
    for (decoder, values) in [(Decoder::Plain, filled()), (Decoder::Nom, all)] {
        for value in values {
            for rest in [&b""[..], b"e", b"3:foo", b"\xff"] {
                let input = [&benc(&value), rest].concat();
                assert!(decoder.accepts(&input));
                let (remaining, read) = decoder.decode(&input).unwrap();
                assert_eq!(remaining, rest);
                assert_eq!(read, value);
            }
        }
    }
}

#[test]
fn decoders_agree() {
    let inputs = [
        &b"5:hellounparsed"[..],
        b"i-326eunparsed",
        b"l5:helloi52eeunparsed",
        b"d5:applei-23e3:foo3:bar5:helloi52eeunparsed",
        b"ll1:aed1:bl1:ceee",
        b"i3a3e",
        b"5hi:hello",
        b"l1:a",
        b"",
    ];
    for input in inputs {
        assert!(Decoder::Plain.accepts(input));
        assert_eq!(
            Decoder::Plain.decode(input).ok(),
            Decoder::Nom.decode(input).ok()
        );
    }
}

#[derive(Debug, PartialEq)]
enum Parsed {
    Int(i64),
    Text(String),
    List(Vec<Parsed>),
    Dict(BTreeMap<String, Parsed>),
}

fn grammar(input: &[u8]) -> IResult<&[u8], Parsed> {
    alt((
        combinator::map(
            delimited(char('i'), parse_i64, char('e')),
            Parsed::Int,
        ),
        combinator::map(grammar_string, Parsed::Text),
        combinator::map(
            delimited(char('l'), many0(grammar), char('e')),
            Parsed::List,
        ),
        combinator::map(
            delimited(
                char('d'),
                fold_many0(
                    pair(grammar_string, grammar),
                    BTreeMap::new,
                    |mut acc, (key, value)| {
                        acc.insert(key, value);
                        acc
                    },
                ),
                char('e'),
            ),
            Parsed::Dict,
        ),
    ))(input)
}

fn grammar_string(input: &[u8]) -> IResult<&[u8], String> {
    let (input, len): (&[u8], u64) = map_res(
        terminated(map_res(digit1, str::from_utf8), char(':')),
        FromStr::from_str,
    )(input)?;
    combinator::map(take(len), |s| String::from_utf8_lossy(s).into_owned())(input)
}

fn parsed(value: Value) -> Parsed {
    match value {
        Value::Int(n) => Parsed::Int(n),
        Value::String(text) => Parsed::Text(text),
        Value::List(items) => Parsed::List(items.into_iter().map(parsed).collect()),
        Value::Dict(entries) => Parsed::Dict(
            entries
                .into_iter()
                .map(|(key, value)| (key, parsed(value)))
                .collect(),
        ),
    }
}

/// The combinators of the `nom` crate read the same from all short inputs over a small alphabet.
#[test]
fn grammar_is_that_of_the_combinators() {
    let alphabet = b"ilde-1:x";
    let mut inputs: Vec<Vec<u8>> = vec![vec![]];
    for _ in 0..5 {
        let longer: Vec<Vec<u8>> = inputs
            .iter()
            .flat_map(|input| alphabet.iter().map(move |b| [&input[..], &[*b]].concat()))
            .collect();
        inputs.extend(longer);
    }
    for input in [
        &b"d5:applei-23e3:foo3:bar5:helloi52eeunparsed"[..],
        b"d1:bi1e2:aai2e1:bi3e1:ai4ee",
        b"i9223372036854775808e",
        b"i-9223372036854775808e",
        b"i+5e",
        b"18446744073709551616:a",
        b"d1:ai1e1:bxe",
        b"d1:ai1e1:b",
    ] {
        inputs.push(input.to_vec());
    }
    for input in &inputs {
        match (grammar(input), decode(input)) {
            (Ok((rest, expected)), Ok((remaining, value))) => {
                assert_eq!(rest, remaining);
                assert_eq!(expected, parsed(value));
            }
            (Err(nom::Err::Error(error)), Err(DecodeError::Unexpected { at })) => {
                assert_eq!(error.input, &input[at..]);
            }
            (expected, found) => panic!("{:?}: {:?}, {:?}", input, expected, found),
        }
    }
}
