use irc_codec::Message;

fn msg(source: Option<&str>, command: &str, parameters: &[&str]) -> Message {
    Message {
        source: source.map(|s| s.to_string()),
        command: command.to_string(),
        parameters: parameters.iter().map(|p| p.to_string()).collect(),
    }
}

#[test]
fn parse_rfc() {
    assert_eq!(
        Message::from_text(":irc.example.com CAP * LIST :"),
        msg(Some("irc.example.com"), "CAP", &["*", "LIST", ""]),
    );
    assert_eq!(
        Message::from_text("CAP * LS :multi-prefix sasl"),
        msg(None, "CAP", &["*", "LS", "multi-prefix sasl"]),
    );
    assert_eq!(
        Message::from_text("CAP REQ :sasl message-tags foo"),
        msg(None, "CAP", &["REQ", "sasl message-tags foo"]),
    );
}

#[test]
fn prefix_handling() {
    assert_eq!(
        Message::from_text(":a.b CMD x y :z w"),
        msg(Some("a.b"), "CMD", &["x", "y", "z w"]),
    );
}

#[test]
fn no_prefix_handling() {
    let m = Message::from_text("CMD * LS :multi-prefix sasl");
    assert_eq!(m.source, None);
    assert_eq!(m.command, "CMD");
    assert_eq!(m.parameters, vec!["*", "LS", "multi-prefix sasl"]);
}

#[test]
fn empty_trailing_parameter() {
    let m = Message::from_text("CAP * LIST :");
    assert_eq!(m.parameters, vec!["*", "LIST", ""]);
    assert_eq!(m.parameters.last().map(|s| s.as_str()), Some(""));
}

#[test]
fn consecutive_spaces_are_collapsed() {
    let m = Message::from_text("CMD *  :");
    assert_eq!(m.parameters, vec!["*", ""]);
}

#[test]
fn render_colon_prefixes_last_parameter() {
    let m = msg(Some("irc.example.com"), "CAP", &["*", "LS", "multi-prefix sasl"]);
    assert_eq!(m.to_text(), ":irc.example.com CAP * LS :multi-prefix sasl");
}

#[test]
fn render_without_parameters() {
    let m = msg(None, "PING", &[]);
    assert_eq!(m.to_text(), "PING");
}

#[test]
fn round_trip_message() {
    let cases = vec![
        msg(None, "CAP", &["REQ", "sasl message-tags foo"]),
        msg(Some("a.b"), "CMD", &["x", "y", "z w"]),
        msg(None, "PING", &[]),
        msg(None, "TOPIC", &["#chan", ""]),
        msg(Some("n!u@h"), "KICK", &["#chan", "a,b", "no reason given"]),
        msg(None, "NOTE", &["lone parameter with spaces"]),
    ];
    for m in cases {
        let line = m.to_text();
        assert_eq!(Message::from_text(&line), m, "line was {line:?}");
    }
}

#[test]
fn lone_spaced_parameter_round_trips() {
    let m = msg(None, "CMD", &["a b c"]);
    assert_eq!(m.to_text(), "CMD :a b c");
    assert_eq!(Message::from_text("CMD :a b c"), m);
}
