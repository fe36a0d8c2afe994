use irc_codec::error::Error;
use irc_codec::proto::de::Deserializer;
use irc_codec::proto::ser::{Sequence, Serializer};
use irc_codec::proto::{cap_shape, command_shape, Cap, Command, Shape, Value};
use irc_codec::Message;

fn text(s: &str) -> Value {
    Value::Text(s.to_string())
}

fn tuple(fields: Vec<Value>) -> Value {
    Value::Tuple(fields)
}

fn cursor(tokens: &[&str]) -> Deserializer {
    let msg = Message {
        source: None,
        command: tokens[0].to_string(),
        parameters: tokens[1..].iter().map(|t| t.to_string()).collect(),
    };
    Deserializer::from_message(msg)
}

fn args_of(ser: &Serializer) -> Vec<&str> {
    ser.args.iter().map(|a| a.as_str()).collect()
}

#[test]
fn encode_scalars_exactly() {
    assert_eq!(args_of(&Serializer::new(&Value::UInt(0)).unwrap()), ["0"]);
    assert_eq!(
        args_of(&Serializer::new(&Value::UInt(18446744073709551615)).unwrap()),
        ["18446744073709551615"],
    );
    assert_eq!(args_of(&Serializer::new(&Value::Int(-42)).unwrap()), ["-42"]);
    assert_eq!(
        args_of(&Serializer::new(&Value::Int(i64::MIN)).unwrap()),
        ["-9223372036854775808"],
    );
    assert_eq!(args_of(&Serializer::new(&Value::Bool(true)).unwrap()), ["true"]);
    assert_eq!(args_of(&Serializer::new(&Value::Bool(false)).unwrap()), ["false"]);
    assert_eq!(args_of(&Serializer::new(&Value::Char('x')).unwrap()), ["x"]);
    assert_eq!(args_of(&Serializer::new(&text("hello")).unwrap()), ["hello"]);
}

#[test]
fn decode_scalars_exactly() {
    let mut d = cursor(&["17", "-5", "true", "x"]);
    assert_eq!(d.deserialize(&Shape::UInt).unwrap(), Value::UInt(17));
    assert_eq!(d.deserialize(&Shape::Int).unwrap(), Value::Int(-5));
    assert_eq!(d.deserialize(&Shape::Bool).unwrap(), Value::Bool(true));
    assert_eq!(d.deserialize(&Shape::Char).unwrap(), Value::Char('x'));
}

#[test]
fn decode_accepts_plus_sign() {
    let mut d = cursor(&["+17", "+5"]);
    assert_eq!(d.deserialize(&Shape::UInt).unwrap(), Value::UInt(17));
    assert_eq!(d.deserialize(&Shape::Int).unwrap(), Value::Int(5));
}

#[test]
fn decode_malformed_number_fails() {
    let mut d = cursor(&["abc"]);
    assert!(matches!(d.deserialize(&Shape::UInt), Err(Error::Deserialize(_))));
    let mut d = cursor(&["18446744073709551616"]);
    assert!(matches!(d.deserialize(&Shape::UInt), Err(Error::Deserialize(_))));
    let mut d = cursor(&["-1"]);
    assert!(matches!(d.deserialize(&Shape::UInt), Err(Error::Deserialize(_))));
    let mut d = cursor(&["-9223372036854775809"]);
    assert!(matches!(d.deserialize(&Shape::Int), Err(Error::Deserialize(_))));
    let mut d = cursor(&["maybe"]);
    assert!(matches!(d.deserialize(&Shape::Bool), Err(Error::Deserialize(_))));
    let mut d = cursor(&["xy"]);
    assert!(matches!(d.deserialize(&Shape::Char), Err(Error::Deserialize(_))));
}

#[test]
fn decode_exhausted_cursor_is_eof() {
    let pair = Shape::Tuple(vec![Shape::Text, Shape::Text]);
    let mut d = cursor(&["only"]);
    assert!(matches!(d.deserialize(&pair), Err(Error::Eof)));
}

fn optional_pair_shape() -> Shape {
    Shape::Tuple(vec![Shape::Text, Shape::Optional(Box::new(Shape::Text))])
}

#[test]
fn optional_field_symmetry_present() {
    let value = tuple(vec![
        text("alpha"),
        Value::Maybe(Some(Box::new(text("beta")))),
    ]);
    let ser = Serializer::new(&value).unwrap();
    assert_eq!(args_of(&ser), ["alpha", "beta"]);

    let mut d = cursor(&["alpha", "beta"]);
    assert_eq!(d.deserialize(&optional_pair_shape()).unwrap(), value);
}

#[test]
fn optional_field_symmetry_absent() {
    let value = tuple(vec![text("alpha"), Value::Maybe(None)]);
    let ser = Serializer::new(&value).unwrap();
    assert_eq!(args_of(&ser), ["alpha"]);

    let mut d = cursor(&["alpha"]);
    assert_eq!(d.deserialize(&optional_pair_shape()).unwrap(), value);
}

#[test]
fn sequence_occupies_one_token() {
    let value = tuple(vec![
        Value::List(vec![text("ops"), text("sasl")]),
        Value::Maybe(Some(Box::new(text("tail")))),
    ]);
    let ser = Serializer::new(&value).unwrap();
    assert_eq!(args_of(&ser), ["ops,sasl", "tail"]);
}

#[test]
fn sequence_symmetry() {
    let list_shape = Shape::List(Box::new(Shape::Text));
    let mut d = cursor(&["ops,sasl"]);
    assert_eq!(
        d.deserialize(&list_shape).unwrap(),
        Value::List(vec![text("ops"), text("sasl")]),
    );

    let mut d = cursor(&[""]);
    assert_eq!(d.deserialize(&list_shape).unwrap(), Value::List(vec![]));

    let empty = Serializer::new(&Value::List(vec![])).unwrap();
    assert_eq!(args_of(&empty), [""]);
}

#[test]
fn sequence_accumulator_isolates_items() {
    let mut seq = Sequence::new();
    seq.element(&text("a")).unwrap();
    seq.element(&tuple(vec![text("b"), text("c")])).unwrap();
    let mut ser = Serializer::default();
    seq.end(&mut ser);
    assert_eq!(args_of(&ser), ["a,b,c"]);
}

#[test]
fn map_rejection() {
    let dict = Value::Dict(vec![(text("k"), text("v"))]);
    assert!(matches!(Serializer::new(&dict), Err(Error::UnsupportedType)));

    let mut d = cursor(&["anything"]);
    assert!(matches!(d.deserialize(&Shape::Dict), Err(Error::UnsupportedType)));
    let mut d = cursor(&["anything"]);
    assert!(matches!(d.deserialize(&Shape::Dynamic), Err(Error::UnsupportedType)));
}

#[test]
fn tagged_union_symmetry() {
    let cmd = Command::Cap(Cap::Req { caps: "sasl".to_string() });
    let ser = Serializer::new(&cmd.to_value()).unwrap();
    assert_eq!(args_of(&ser), ["CAP", "REQ", "sasl"]);

    let msg = ser.to_message().unwrap();
    assert_eq!(msg.command, "CAP");
    assert_eq!(msg.parameters, vec!["REQ", "sasl"]);

    let mut d = cursor(&["REQ", "sasl"]);
    let v = d.deserialize(&cap_shape()).unwrap();
    assert_eq!(
        v,
        Value::Variant(
            "REQ".to_string(),
            Box::new(tuple(vec![text("sasl")])),
        ),
    );
}

#[test]
fn unknown_variant_tag_fails() {
    let mut d = cursor(&["NOPE", "x"]);
    assert!(matches!(d.deserialize(&cap_shape()), Err(Error::Deserialize(_))));
}

#[test]
fn to_message_needs_a_command() {
    let ser = Serializer::default();
    assert!(matches!(ser.to_message(), Err(Error::Eof)));
}

#[test]
fn serializer_argument_appends() {
    let ser = Serializer::new(&text("PING")).unwrap();
    let ser = ser.argument(&text("token")).unwrap();
    assert_eq!(args_of(&ser), ["PING", "token"]);
    let msg = ser.to_message().unwrap();
    assert_eq!(msg.command, "PING");
    assert_eq!(msg.parameters, vec!["token"]);
}

fn wire_round_trip(cmd: Command) {
    let ser = Serializer::new(&cmd.to_value()).unwrap();
    let line = ser.to_message().unwrap().to_text();
    let parsed = Message::from_text(&line);
    let mut d = Deserializer::from_message(parsed);
    let value = d.deserialize(&command_shape()).unwrap();
    assert_eq!(Command::from_value(&value), Some(cmd), "line was {line:?}");
}

#[test]
fn command_round_trips_over_the_wire() {
    wire_round_trip(Command::Cap(Cap::Req { caps: "sasl".to_string() }));
    wire_round_trip(Command::Cap(Cap::End));
    wire_round_trip(Command::Authenticate { mechanism: "PLAIN".to_string() });
    wire_round_trip(Command::Pong { server: None, token: "tok".to_string() });
    wire_round_trip(Command::Pong {
        server: Some("irc.example.com".to_string()),
        token: "tok".to_string(),
    });
    wire_round_trip(Command::Nick { nickname: "ferris".to_string() });
    wire_round_trip(Command::User {
        username: "ferris".to_string(),
        realname: "ferris".to_string(),
    });
    wire_round_trip(Command::Kick {
        channel: "#chan".to_string(),
        users: vec!["a".to_string(), "b".to_string()],
        reason: Some("rude".to_string()),
    });
    wire_round_trip(Command::Kick {
        channel: "#chan".to_string(),
        users: vec!["a".to_string()],
        reason: None,
    });
    wire_round_trip(Command::Topic { channel: "#chan".to_string(), topic: None });
    wire_round_trip(Command::Topic {
        channel: "#chan".to_string(),
        topic: Some("the topic".to_string()),
    });
}

#[test]
fn command_from_value_rejects_misshapen_values() {
    assert_eq!(Command::from_value(&text("CAP")), None);
    let bad_tag = Value::Variant("NOPE".to_string(), Box::new(Value::Unit));
    assert_eq!(Command::from_value(&bad_tag), None);
    let bad_payload = Value::Variant("NICK".to_string(), Box::new(Value::Unit));
    assert_eq!(Command::from_value(&bad_payload), None);
}

#[test]
fn int_boundaries() {
    assert_eq!(
        args_of(&Serializer::new(&Value::Int(i64::MAX)).unwrap()),
        ["9223372036854775807"],
    );
    let mut d = cursor(&["9223372036854775807", "-9223372036854775808"]);
    assert_eq!(d.deserialize(&Shape::Int).unwrap(), Value::Int(i64::MAX));
    assert_eq!(d.deserialize(&Shape::Int).unwrap(), Value::Int(i64::MIN));
    let mut d = cursor(&["9223372036854775808"]);
    assert!(matches!(d.deserialize(&Shape::Int), Err(Error::Deserialize(_))));
}

#[test]
fn unit_consumes_nothing() {
    let mut d = cursor(&["left"]);
    assert_eq!(d.deserialize(&Shape::Unit).unwrap(), Value::Unit);
    assert_eq!(d.available(), 1);
    assert_eq!(d.read_part().unwrap(), "left");
    assert!(matches!(d.read_part(), Err(Error::Eof)));
}

#[test]
fn error_descriptions() {
    assert_eq!(Error::Eof.kind_text(), "Unexpected end of input");
    assert_eq!(Error::UnsupportedType.kind_text(), "Unsupported type");
    let e = Error::Deserialize("bad token".to_string());
    assert_eq!(e.kind_text(), "Deserialize error");
    assert_eq!(e.detail().map(|d| d.as_str()), Some("bad token"));
    assert_eq!(Error::Eof.detail(), None);
}

#[test]
fn decimal_text_helpers() {
    assert_eq!(irc_codec::num::u64_string(0), "0");
    assert_eq!(irc_codec::num::u64_string(90210), "90210");
    assert_eq!(irc_codec::num::i64_string(-7), "-7");
    assert_eq!(irc_codec::num::parse_u64("0042"), Ok(42));
    assert!(irc_codec::num::parse_u64("").is_err());
    assert!(irc_codec::num::parse_u64("4 2").is_err());
}
