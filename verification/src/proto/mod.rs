//! The shape-driven token codec: a closed description of value shapes, the
//! values themselves, and the commands of the protocol expressed in them.
//!
//! A shape describes what a value looks like — a scalar kind, an optional
//! field, a sequence, a fixed-arity tuple, or a tagged union — and the
//! encoder and decoder walk that description to turn values into wire
//! tokens and back. Map-like shapes have no wire representation and are
//! always rejected.
use vstd::prelude::*;

pub mod de;
pub mod laws;
pub mod ser;

verus! {

/// A value's wire structure, as the codec sees it.
///
/// `Dict` stands for any map-like shape and `Dynamic` for fully
/// self-describing decoding; both are unrepresentable on the wire and are
/// rejected with `UnsupportedType`.
#[derive(Debug, PartialEq, Eq)]
pub enum Shape {
    Text,
    UInt,
    Int,
    Bool,
    Char,
    Unit,
    Optional(Box<Shape>),
    List(Box<Shape>),
    Tuple(Vec<Shape>),
    Union(Vec<(String, Shape)>),
    Dict,
    Dynamic,
}

/// A structured value to encode, or the result of a decode.
///
/// `Maybe` is an optional field; an absent one produces no token at all.
/// A `List` becomes a single comma-joined token. A `Variant` carries the
/// tag text and its payload. `Dict` values exist only to be rejected.
#[derive(Debug, PartialEq, Eq)]
pub enum Value {
    Text(String),
    UInt(u64),
    Int(i64),
    Bool(bool),
    Char(char),
    Unit,
    Maybe(Option<Box<Value>>),
    List(Vec<Value>),
    Tuple(Vec<Value>),
    Variant(String, Box<Value>),
    Dict(Vec<(Value, Value)>),
}

/// The mathematical content of a [`Value`]: text as character sequences,
/// collections as `Seq`.
pub enum SpecValue {
    Text(Seq<char>),
    UInt(u64),
    Int(i64),
    Bool(bool),
    Char(char),
    Unit,
    Maybe(Option<Box<SpecValue>>),
    List(Seq<SpecValue>),
    Tuple(Seq<SpecValue>),
    Variant(Seq<char>, Box<SpecValue>),
    Dict(Seq<(SpecValue, SpecValue)>),
}

pub open spec fn spec_value_of(v: Value) -> SpecValue
    decreases v,
{
    match v {
        Value::Text(s) => SpecValue::Text(s@),
        Value::UInt(n) => SpecValue::UInt(n),
        Value::Int(n) => SpecValue::Int(n),
        Value::Bool(b) => SpecValue::Bool(b),
        Value::Char(c) => SpecValue::Char(c),
        Value::Unit => SpecValue::Unit,
        Value::Maybe(o) => SpecValue::Maybe(
            match o {
                Some(b) => Some(Box::new(spec_value_of(*b))),
                None => None,
            },
        ),
        Value::List(vs) => SpecValue::List(spec_values_of(vs@, vs@.len() as int)),
        Value::Tuple(vs) => SpecValue::Tuple(spec_values_of(vs@, vs@.len() as int)),
        Value::Variant(name, b) => SpecValue::Variant(name@, Box::new(spec_value_of(*b))),
        Value::Dict(ps) => SpecValue::Dict(spec_pairs_of(ps@, ps@.len() as int)),
    }
}

/// The views of the first `n` elements of `vs`.
pub open spec fn spec_values_of(vs: Seq<Value>, n: int) -> Seq<SpecValue>
    decreases vs, n,
{
    if n <= 0 || n > vs.len() {
        Seq::empty()
    } else {
        spec_values_of(vs, n - 1).push(spec_value_of(vs[n - 1]))
    }
}

pub open spec fn spec_pairs_of(ps: Seq<(Value, Value)>, n: int) -> Seq<(SpecValue, SpecValue)>
    decreases ps, n,
{
    if n <= 0 || n > ps.len() {
        Seq::empty()
    } else {
        spec_pairs_of(ps, n - 1).push(
            (spec_value_of(ps[n - 1].0), spec_value_of(ps[n - 1].1)),
        )
    }
}

impl View for Value {
    type V = SpecValue;

    open spec fn view(&self) -> SpecValue {
        spec_value_of(*self)
    }
}

impl DeepView for Value {
    type V = SpecValue;

    open spec fn deep_view(&self) -> SpecValue {
        spec_value_of(*self)
    }
}

pub broadcast proof fn lemma_spec_values_of_len(vs: Seq<Value>, n: int)
    requires
        0 <= n <= vs.len(),
    ensures
        (#[trigger] spec_values_of(vs, n)).len() == n,
        forall|i: int| 0 <= i < n ==> spec_values_of(vs, n)[i] == spec_value_of(vs[i]),
    decreases n,
{
    if n > 0 {
        lemma_spec_values_of_len(vs, n - 1);
    }
}

/// A protocol command. Every variant encodes as its upper-case name
/// followed by its payload fields.
#[derive(Debug, PartialEq, Eq, Clone)]
pub enum Command {
    Cap(Cap),
    Authenticate { mechanism: String },
    Pong { server: Option<String>, token: String },
    Nick { nickname: String },
    User { username: String, realname: String },
    Kick { channel: String, users: Vec<String>, reason: Option<String> },
    Topic { channel: String, topic: Option<String> },
}

/// A capability negotiation subcommand.
#[derive(Debug, PartialEq, Eq, Clone)]
pub enum Cap {
    Req { caps: String },
    End,
}

/// The views of a list of texts, as sequence items.
pub open spec fn texts_of(ss: Seq<String>) -> Seq<SpecValue> {
    Seq::new(ss.len(), |i: int| SpecValue::Text(ss[i]@))
}

pub open spec fn spec_maybe_text(o: Option<String>) -> SpecValue {
    match o {
        Some(s) => SpecValue::Maybe(Some(Box::new(SpecValue::Text(s@)))),
        None => SpecValue::Maybe(None),
    }
}

/// How a capability subcommand looks as a codec value.
pub open spec fn spec_cap_value(c: Cap) -> SpecValue {
    match c {
        Cap::Req { caps } => SpecValue::Variant(
            "REQ"@,
            Box::new(SpecValue::Tuple(seq![SpecValue::Text(caps@)])),
        ),
        Cap::End => SpecValue::Variant("END"@, Box::new(SpecValue::Unit)),
    }
}

/// How a command looks as a codec value: its upper-case tag, then its
/// fields in declared order.
pub open spec fn spec_command_value(c: Command) -> SpecValue {
    match c {
        Command::Cap(inner) => SpecValue::Variant("CAP"@, Box::new(spec_cap_value(inner))),
        Command::Authenticate { mechanism } => SpecValue::Variant(
            "AUTHENTICATE"@,
            Box::new(SpecValue::Tuple(seq![SpecValue::Text(mechanism@)])),
        ),
        Command::Pong { server, token } => SpecValue::Variant(
            "PONG"@,
            Box::new(SpecValue::Tuple(seq![spec_maybe_text(server), SpecValue::Text(token@)])),
        ),
        Command::Nick { nickname } => SpecValue::Variant(
            "NICK"@,
            Box::new(SpecValue::Tuple(seq![SpecValue::Text(nickname@)])),
        ),
        Command::User { username, realname } => SpecValue::Variant(
            "USER"@,
            Box::new(
                SpecValue::Tuple(seq![SpecValue::Text(username@), SpecValue::Text(realname@)]),
            ),
        ),
        Command::Kick { channel, users, reason } => SpecValue::Variant(
            "KICK"@,
            Box::new(
                SpecValue::Tuple(
                    seq![
                        SpecValue::Text(channel@),
                        SpecValue::List(texts_of(users@)),
                        spec_maybe_text(reason),
                    ],
                ),
            ),
        ),
        Command::Topic { channel, topic } => SpecValue::Variant(
            "TOPIC"@,
            Box::new(SpecValue::Tuple(seq![SpecValue::Text(channel@), spec_maybe_text(topic)])),
        ),
    }
}

/// An optional text field value: absent, or present with a text inside.
pub open spec fn is_maybe_text(v: SpecValue) -> bool {
    match v {
        SpecValue::Maybe(o) => match o {
            Some(b) => *b is Text,
            None => true,
        },
        _ => false,
    }
}

/// A sequence value whose items are all texts.
pub open spec fn is_text_list(v: SpecValue) -> bool {
    v matches SpecValue::List(ts) && (forall|i: int|
        0 <= i < ts.len() ==> (#[trigger] ts[i]) is Text)
}

/// A one-field tuple holding a text.
pub open spec fn is_one_text(v: SpecValue) -> bool {
    v matches SpecValue::Tuple(fs) && fs.len() == 1 && fs[0] is Text
}

/// The values that stand for a capability subcommand.
pub open spec fn spec_is_cap(v: SpecValue) -> bool {
    match v {
        SpecValue::Variant(tag, p) => (tag == "REQ"@ && is_one_text(*p)) || (tag == "END"@
            && *p is Unit),
        _ => false,
    }
}

/// The values that stand for a command.
pub open spec fn spec_is_command(v: SpecValue) -> bool {
    match v {
        SpecValue::Variant(tag, p) => {
            ||| (tag == "CAP"@ && spec_is_cap(*p))
            ||| (tag == "AUTHENTICATE"@ && is_one_text(*p))
            ||| (tag == "PONG"@ && (*p matches SpecValue::Tuple(fs) && fs.len() == 2
                && is_maybe_text(fs[0]) && fs[1] is Text))
            ||| (tag == "NICK"@ && is_one_text(*p))
            ||| (tag == "USER"@ && (*p matches SpecValue::Tuple(fs) && fs.len() == 2
                && fs[0] is Text && fs[1] is Text))
            ||| (tag == "KICK"@ && (*p matches SpecValue::Tuple(fs) && fs.len() == 3
                && fs[0] is Text && is_text_list(fs[1]) && is_maybe_text(fs[2])))
            ||| (tag == "TOPIC"@ && (*p matches SpecValue::Tuple(fs) && fs.len() == 2
                && fs[0] is Text && is_maybe_text(fs[1])))
        },
        _ => false,
    }
}


/// The view of a value keeps its constructor.
pub proof fn lemma_value_kind(v: Value)
    ensures
        spec_value_of(v) is Text <==> v is Text,
        spec_value_of(v) is Unit <==> v is Unit,
        spec_value_of(v) is Maybe <==> v is Maybe,
        spec_value_of(v) is List <==> v is List,
        spec_value_of(v) is Tuple <==> v is Tuple,
        spec_value_of(v) is Variant <==> v is Variant,
{
    match v {
        Value::Text(_) => {},
        Value::UInt(_) => {},
        Value::Int(_) => {},
        Value::Bool(_) => {},
        Value::Char(_) => {},
        Value::Unit => {},
        Value::Maybe(_) => {},
        Value::List(_) => {},
        Value::Tuple(_) => {},
        Value::Variant(_, _) => {},
        Value::Dict(_) => {},
    }
}

/// Builds a one-field tuple value holding the given text.
fn one_text_value(s: &String) -> (r: Value)
    ensures
        r@ == SpecValue::Tuple(seq![SpecValue::Text(s@)]),
{
    let mut fields: Vec<Value> = Vec::new();
    let item = Value::Text(s.clone());
    proof {
        assert(item@ == SpecValue::Text(s@));
    }
    fields.push(item);
    proof {
        lemma_spec_values_of_len(fields@, 1);
        assert(spec_values_of(fields@, 1) =~= seq![SpecValue::Text(s@)]);
    }
    Value::Tuple(fields)
}

fn maybe_text_value(o: &Option<String>) -> (r: Value)
    ensures
        r@ == spec_maybe_text(*o),
{
    match o {
        Some(s) => {
            let inner = Value::Text(s.clone());
            proof {
                assert(inner@ == SpecValue::Text(s@));
            }
            Value::Maybe(Some(Box::new(inner)))
        },
        None => Value::Maybe(None),
    }
}

impl Cap {
    /// This subcommand as a codec value.
    pub fn to_value(&self) -> (r: Value)
        ensures
            r@ == spec_cap_value(*self),
    {
        match self {
            Cap::Req { caps } => {
                let payload = one_text_value(caps);
                let ghost pv = payload@;
                let r = Value::Variant(String::from_str("REQ"), Box::new(payload));
                proof {
                    assert(r@ == SpecValue::Variant("REQ"@, Box::new(pv)));
                }
                r
            },
            Cap::End => {
                let r = Value::Variant(String::from_str("END"), Box::new(Value::Unit));
                proof {
                    assert(spec_value_of(Value::Unit) == SpecValue::Unit);
                    assert(r@ == SpecValue::Variant("END"@, Box::new(SpecValue::Unit)));
                }
                r
            },
        }
    }

    /// Reads a capability subcommand back out of a codec value.
    pub fn from_value(v: &Value) -> (r: Option<Cap>)
        ensures
            match r {
                Some(c) => spec_is_cap(v@) && spec_cap_value(c) == v@,
                None => !spec_is_cap(v@),
            },
    {
        proof {
            reveal_strlit("REQ");
            reveal_strlit("END");
            assert("REQ"@[0] != "END"@[0]);
            assert("REQ"@ != "END"@);
            lemma_value_kind(*v);
        }
        match v {
            Value::Variant(tag, payload) => {
                proof {
                    lemma_value_kind(**payload);
                    assert(v@ == SpecValue::Variant(tag@, Box::new((**payload)@)));
                }
                if *tag == String::from_str("REQ") {
                    match &**payload {
                        Value::Tuple(fs) => {
                            proof {
                                lemma_spec_values_of_len(fs@, fs@.len() as int);
                                assert((**payload)@ == SpecValue::Tuple(
                                    spec_values_of(fs@, fs@.len() as int),
                                ));
                            }
                            if fs.len() == 1 {
                                proof {
                                    lemma_value_kind(fs@[0]);
                                }
                                match &fs[0] {
                                    Value::Text(caps) => {
                                        proof {
                                            assert(spec_value_of(fs@[0]) == SpecValue::Text(
                                                caps@,
                                            ));
                                            assert(spec_values_of(fs@, 1) =~= seq![
                                                SpecValue::Text(caps@),
                                            ]);
                                            assert(spec_is_cap(v@));
                                        }
                                        Some(Cap::Req { caps: caps.clone() })
                                    },
                                    _ => {
                                        proof {
                                            assert(spec_values_of(fs@, 1)[0] == spec_value_of(
                                                fs@[0],
                                            ));
                                            assert(!is_one_text((**payload)@));
                                            assert(!spec_is_cap(v@));
                                        }
                                        None
                                    },
                                }
                            } else {
                                proof {
                                    assert(!is_one_text((**payload)@));
                                    assert(!spec_is_cap(v@));
                                }
                                None
                            }
                        },
                        _ => {
                            proof {
                                assert(!is_one_text((**payload)@));
                                assert(!spec_is_cap(v@));
                            }
                            None
                        },
                    }
                } else if *tag == String::from_str("END") {
                    match &**payload {
                        Value::Unit => {
                            proof {
                                assert(spec_value_of(Value::Unit) == SpecValue::Unit);
                                assert(spec_is_cap(v@));
                            }
                            Some(Cap::End)
                        },
                        _ => {
                            proof {
                                assert(!((**payload)@ is Unit));
                                assert(!spec_is_cap(v@));
                            }
                            None
                        },
                    }
                } else {
                    proof {
                        assert(tag@ != "REQ"@ && tag@ != "END"@);
                        assert(!spec_is_cap(v@));
                    }
                    None
                }
            },
            _ => {
                proof {
                    assert(!(v@ is Variant));
                    assert(!spec_is_cap(v@));
                }
                None
            },
        }
    }
}


/// Reads the single text out of a one-field tuple value.
fn one_text_of(v: &Value) -> (r: Option<String>)
    ensures
        match r {
            Some(s) => is_one_text(v@) && v@ == SpecValue::Tuple(seq![SpecValue::Text(s@)]),
            None => !is_one_text(v@),
        },
{
    proof {
        lemma_value_kind(*v);
    }
    match v {
        Value::Tuple(fs) => {
            proof {
                lemma_spec_values_of_len(fs@, fs@.len() as int);
                assert(v@ == SpecValue::Tuple(spec_values_of(fs@, fs@.len() as int)));
            }
            if fs.len() == 1 {
                proof {
                    lemma_value_kind(fs@[0]);
                }
                match &fs[0] {
                    Value::Text(s) => {
                        proof {
                            assert(spec_value_of(fs@[0]) == SpecValue::Text(s@));
                            assert(spec_values_of(fs@, 1) =~= seq![SpecValue::Text(s@)]);
                        }
                        Some(s.clone())
                    },
                    _ => {
                        proof {
                            assert(spec_values_of(fs@, 1)[0] == spec_value_of(fs@[0]));
                        }
                        None
                    },
                }
            } else {
                None
            }
        },
        _ => None,
    }
}

/// Reads an optional text out of a `Maybe` value.
fn maybe_text_of(v: &Value) -> (r: Option<Option<String>>)
    ensures
        match r {
            Some(o) => is_maybe_text(v@) && v@ == spec_maybe_text(o),
            None => !is_maybe_text(v@),
        },
{
    proof {
        lemma_value_kind(*v);
    }
    match v {
        Value::Maybe(o) => match o {
            Some(b) => {
                proof {
                    lemma_value_kind(**b);
                    assert(v@ == SpecValue::Maybe(Some(Box::new((**b)@))));
                }
                match &**b {
                    Value::Text(s) => {
                        proof {
                            assert((**b)@ == SpecValue::Text(s@));
                        }
                        Some(Some(s.clone()))
                    },
                    _ => None,
                }
            },
            None => {
                proof {
                    assert(v@ == SpecValue::Maybe(None));
                }
                Some(None)
            },
        },
        _ => None,
    }
}

/// Reads the text items out of a sequence value.
fn texts_list_of(v: &Value) -> (r: Option<Vec<String>>)
    ensures
        match r {
            Some(us) => is_text_list(v@) && v@ == SpecValue::List(texts_of(us@)),
            None => !is_text_list(v@),
        },
{
    proof {
        lemma_value_kind(*v);
    }
    match v {
        Value::List(items) => {
            proof {
                lemma_spec_values_of_len(items@, items@.len() as int);
                assert(v@ == SpecValue::List(spec_values_of(items@, items@.len() as int)));
            }
            let ghost svs = spec_values_of(items@, items@.len() as int);
            let n = items.len();
            let mut us: Vec<String> = Vec::new();
            let mut i: usize = 0;
            while i < n
                invariant
                    0 <= i <= n,
                    n == items.len(),
                    v@ == SpecValue::List(svs),
                    svs == spec_values_of(items@, items@.len() as int),
                    svs.len() == n,
                    forall|j: int| 0 <= j < n ==> svs[j] == spec_value_of(items@[j]),
                    us@.len() == i,
                    forall|j: int| 0 <= j < i ==> svs[j] == SpecValue::Text(#[trigger] us@[j]@),
                decreases n - i,
            {
                proof {
                    lemma_value_kind(items@[i as int]);
                }
                match &items[i] {
                    Value::Text(s) => {
                        proof {
                            assert(spec_value_of(items@[i as int]) == SpecValue::Text(s@));
                        }
                        us.push(s.clone());
                        i = i + 1;
                    },
                    _ => {
                        proof {
                            assert(!(svs[i as int] is Text));
                        }
                        return None;
                    },
                }
            }
            proof {
                assert(svs =~= texts_of(us@));
            }
            Some(us)
        },
        _ => None,
    }
}

impl Command {
    /// This command as a codec value: its tag, then its fields.
    pub fn to_value(&self) -> (r: Value)
        ensures
            r@ == spec_command_value(*self),
    {
        match self {
            Command::Cap(inner) => {
                let payload = inner.to_value();
                let ghost pv = payload@;
                let r = Value::Variant(String::from_str("CAP"), Box::new(payload));
                proof {
                    assert(r@ == SpecValue::Variant("CAP"@, Box::new(pv)));
                }
                r
            },
            Command::Authenticate { mechanism } => {
                let payload = one_text_value(mechanism);
                let ghost pv = payload@;
                let r = Value::Variant(String::from_str("AUTHENTICATE"), Box::new(payload));
                proof {
                    assert(r@ == SpecValue::Variant("AUTHENTICATE"@, Box::new(pv)));
                }
                r
            },
            Command::Pong { server, token } => {
                let f0 = maybe_text_value(server);
                let f1 = Value::Text(token.clone());
                let ghost g0 = f0@;
                let ghost g1 = f1@;
                proof {
                    assert(g1 == SpecValue::Text(token@));
                }
                let mut fields: Vec<Value> = Vec::new();
                fields.push(f0);
                fields.push(f1);
                proof {
                    lemma_spec_values_of_len(fields@, 2);
                    assert(spec_values_of(fields@, 2) =~= seq![g0, g1]);
                }
                let payload = Value::Tuple(fields);
                let ghost pv = payload@;
                let r = Value::Variant(String::from_str("PONG"), Box::new(payload));
                proof {
                    assert(pv == SpecValue::Tuple(seq![g0, g1]));
                    assert(r@ == SpecValue::Variant("PONG"@, Box::new(pv)));
                }
                r
            },
            Command::Nick { nickname } => {
                let payload = one_text_value(nickname);
                let ghost pv = payload@;
                let r = Value::Variant(String::from_str("NICK"), Box::new(payload));
                proof {
                    assert(r@ == SpecValue::Variant("NICK"@, Box::new(pv)));
                }
                r
            },
            Command::User { username, realname } => {
                let f0 = Value::Text(username.clone());
                let f1 = Value::Text(realname.clone());
                let ghost g0 = f0@;
                let ghost g1 = f1@;
                proof {
                    assert(g0 == SpecValue::Text(username@));
                    assert(g1 == SpecValue::Text(realname@));
                }
                let mut fields: Vec<Value> = Vec::new();
                fields.push(f0);
                fields.push(f1);
                proof {
                    lemma_spec_values_of_len(fields@, 2);
                    assert(spec_values_of(fields@, 2) =~= seq![g0, g1]);
                }
                let payload = Value::Tuple(fields);
                let ghost pv = payload@;
                let r = Value::Variant(String::from_str("USER"), Box::new(payload));
                proof {
                    assert(pv == SpecValue::Tuple(seq![g0, g1]));
                    assert(r@ == SpecValue::Variant("USER"@, Box::new(pv)));
                }
                r
            },
            Command::Kick { channel, users, reason } => {
                let n = users.len();
                let mut items: Vec<Value> = Vec::new();
                let mut i: usize = 0;
                while i < n
                    invariant
                        0 <= i <= n,
                        n == users.len(),
                        items@.len() == i,
                        forall|j: int|
                            0 <= j < i ==> spec_value_of(#[trigger] items@[j]) == SpecValue::Text(
                                users@[j]@,
                            ),
                    decreases n - i,
                {
                    let item = Value::Text(users[i].clone());
                    proof {
                        assert(item@ == SpecValue::Text(users@[i as int]@));
                    }
                    items.push(item);
                    i = i + 1;
                }
                proof {
                    lemma_spec_values_of_len(items@, items@.len() as int);
                }
                let ghost lv = spec_values_of(items@, items@.len() as int);
                let list = Value::List(items);
                let f0 = Value::Text(channel.clone());
                let f2 = maybe_text_value(reason);
                let ghost g0 = f0@;
                let ghost g1 = list@;
                let ghost g2 = f2@;
                proof {
                    assert(g0 == SpecValue::Text(channel@));
                    assert(g1 == SpecValue::List(lv));
                    assert(lv =~= texts_of(users@));
                }
                let mut fields: Vec<Value> = Vec::new();
                fields.push(f0);
                fields.push(list);
                fields.push(f2);
                proof {
                    lemma_spec_values_of_len(fields@, 3);
                    assert(spec_values_of(fields@, 3) =~= seq![g0, g1, g2]);
                }
                let payload = Value::Tuple(fields);
                let ghost pv = payload@;
                let r = Value::Variant(String::from_str("KICK"), Box::new(payload));
                proof {
                    assert(pv == SpecValue::Tuple(seq![g0, g1, g2]));
                    assert(r@ == SpecValue::Variant("KICK"@, Box::new(pv)));
                }
                r
            },
            Command::Topic { channel, topic } => {
                let f0 = Value::Text(channel.clone());
                let f1 = maybe_text_value(topic);
                let ghost g0 = f0@;
                let ghost g1 = f1@;
                proof {
                    assert(g0 == SpecValue::Text(channel@));
                }
                let mut fields: Vec<Value> = Vec::new();
                fields.push(f0);
                fields.push(f1);
                proof {
                    lemma_spec_values_of_len(fields@, 2);
                    assert(spec_values_of(fields@, 2) =~= seq![g0, g1]);
                }
                let payload = Value::Tuple(fields);
                let ghost pv = payload@;
                let r = Value::Variant(String::from_str("TOPIC"), Box::new(payload));
                proof {
                    assert(pv == SpecValue::Tuple(seq![g0, g1]));
                    assert(r@ == SpecValue::Variant("TOPIC"@, Box::new(pv)));
                }
                r
            },
        }
    }
}


impl Command {
    /// Reads a command back out of a codec value: the exact inverse of
    /// [`Command::to_value`] on every value that stands for a command.
    pub fn from_value(v: &Value) -> (r: Option<Command>)
        ensures
            match r {
                Some(c) => spec_is_command(v@) && spec_command_value(c) == v@,
                None => !spec_is_command(v@),
            },
    {
        proof {
            reveal_strlit("CAP");
            reveal_strlit("AUTHENTICATE");
            reveal_strlit("PONG");
            reveal_strlit("NICK");
            reveal_strlit("USER");
            reveal_strlit("KICK");
            reveal_strlit("TOPIC");
            assert("CAP"@.len() == 3 && "AUTHENTICATE"@.len() == 12 && "PONG"@.len() == 4
                && "NICK"@.len() == 4 && "USER"@.len() == 4 && "KICK"@.len() == 4
                && "TOPIC"@.len() == 5);
            assert("PONG"@[0] == 'P' && "NICK"@[0] == 'N' && "USER"@[0] == 'U' && "KICK"@[0]
                == 'K');
            lemma_value_kind(*v);
        }
        match v {
            Value::Variant(tag, payload) => {
                proof {
                    assert(v@ == SpecValue::Variant(tag@, Box::new((**payload)@)));
                }
                if *tag == String::from_str("CAP") {
                    match Cap::from_value(&**payload) {
                        Some(c) => Some(Command::Cap(c)),
                        None => None,
                    }
                } else if *tag == String::from_str("AUTHENTICATE") {
                    match one_text_of(&**payload) {
                        Some(mechanism) => Some(Command::Authenticate { mechanism }),
                        None => None,
                    }
                } else if *tag == String::from_str("PONG") {
                    match two_of(&**payload) {
                        Some((a, b)) => {
                            let server = match maybe_text_of(a) {
                                Some(o) => o,
                                None => {
                                    return None;
                                },
                            };
                            let token = match text_of(b) {
                                Some(t) => t,
                                None => {
                                    return None;
                                },
                            };
                            Some(Command::Pong { server, token })
                        },
                        None => None,
                    }
                } else if *tag == String::from_str("NICK") {
                    match one_text_of(&**payload) {
                        Some(nickname) => Some(Command::Nick { nickname }),
                        None => None,
                    }
                } else if *tag == String::from_str("USER") {
                    match two_of(&**payload) {
                        Some((a, b)) => {
                            let username = match text_of(a) {
                                Some(t) => t,
                                None => {
                                    return None;
                                },
                            };
                            let realname = match text_of(b) {
                                Some(t) => t,
                                None => {
                                    return None;
                                },
                            };
                            Some(Command::User { username, realname })
                        },
                        None => None,
                    }
                } else if *tag == String::from_str("KICK") {
                    match three_of(&**payload) {
                        Some((a, b, c)) => {
                            let channel = match text_of(a) {
                                Some(t) => t,
                                None => {
                                    return None;
                                },
                            };
                            let users = match texts_list_of(b) {
                                Some(us) => us,
                                None => {
                                    return None;
                                },
                            };
                            let reason = match maybe_text_of(c) {
                                Some(o) => o,
                                None => {
                                    return None;
                                },
                            };
                            Some(Command::Kick { channel, users, reason })
                        },
                        None => None,
                    }
                } else if *tag == String::from_str("TOPIC") {
                    match two_of(&**payload) {
                        Some((a, b)) => {
                            let channel = match text_of(a) {
                                Some(t) => t,
                                None => {
                                    return None;
                                },
                            };
                            let topic = match maybe_text_of(b) {
                                Some(o) => o,
                                None => {
                                    return None;
                                },
                            };
                            Some(Command::Topic { channel, topic })
                        },
                        None => None,
                    }
                } else {
                    None
                }
            },
            _ => None,
        }
    }
}

/// Reads the text out of a text value.
fn text_of(v: &Value) -> (r: Option<String>)
    ensures
        match r {
            Some(s) => v@ == SpecValue::Text(s@),
            None => !(v@ is Text),
        },
{
    proof {
        lemma_value_kind(*v);
    }
    match v {
        Value::Text(s) => Some(s.clone()),
        _ => None,
    }
}

/// Takes a two-field tuple value apart.
fn two_of(v: &Value) -> (r: Option<(&Value, &Value)>)
    ensures
        match r {
            Some((a, b)) => v@ == SpecValue::Tuple(seq![a@, b@]),
            None => !(v@ matches SpecValue::Tuple(fs) && fs.len() == 2),
        },
{
    proof {
        lemma_value_kind(*v);
    }
    match v {
        Value::Tuple(fs) => {
            proof {
                lemma_spec_values_of_len(fs@, fs@.len() as int);
                assert(v@ == SpecValue::Tuple(spec_values_of(fs@, fs@.len() as int)));
            }
            if fs.len() == 2 {
                let a = &fs[0];
                let b = &fs[1];
                proof {
                    assert(spec_values_of(fs@, 2) =~= seq![a@, b@]);
                }
                Some((a, b))
            } else {
                None
            }
        },
        _ => None,
    }
}

/// Takes a three-field tuple value apart.
fn three_of(v: &Value) -> (r: Option<(&Value, &Value, &Value)>)
    ensures
        match r {
            Some((a, b, c)) => v@ == SpecValue::Tuple(seq![a@, b@, c@]),
            None => !(v@ matches SpecValue::Tuple(fs) && fs.len() == 3),
        },
{
    proof {
        lemma_value_kind(*v);
    }
    match v {
        Value::Tuple(fs) => {
            proof {
                lemma_spec_values_of_len(fs@, fs@.len() as int);
                assert(v@ == SpecValue::Tuple(spec_values_of(fs@, fs@.len() as int)));
            }
            if fs.len() == 3 {
                let a = &fs[0];
                let b = &fs[1];
                let c = &fs[2];
                proof {
                    assert(spec_values_of(fs@, 3) =~= seq![a@, b@, c@]);
                }
                Some((a, b, c))
            } else {
                None
            }
        },
        _ => None,
    }
}


/// The shape of an optional text field.
pub open spec fn opt_text_shape() -> Shape {
    Shape::Optional(Box::new(Shape::Text))
}

/// The shape of a sequence-of-text field.
pub open spec fn list_text_shape() -> Shape {
    Shape::List(Box::new(Shape::Text))
}

/// A one-field tuple shape holding a text.
pub open spec fn one_text_shape(s: Shape) -> bool {
    s matches Shape::Tuple(fs) && fs@.len() == 1 && fs@[0] == Shape::Text
}

/// The shape a capability subcommand decodes against.
pub open spec fn is_cap_shape(s: Shape) -> bool {
    &&& s matches Shape::Union(vs)
    &&& s matches Shape::Union(vs) ==> {
        &&& vs@.len() == 2
        &&& vs@[0].0@ == "REQ"@
        &&& one_text_shape(vs@[0].1)
        &&& vs@[1].0@ == "END"@
        &&& vs@[1].1 == Shape::Unit
    }
}

/// The shape a command decodes against: one union variant per command,
/// its payload fields in declared order.
pub open spec fn is_command_shape(s: Shape) -> bool {
    &&& s matches Shape::Union(vs)
    &&& s matches Shape::Union(vs) ==> {
        &&& vs@.len() == 7
        &&& vs@[0].0@ == "CAP"@ && is_cap_shape(vs@[0].1)
        &&& vs@[1].0@ == "AUTHENTICATE"@ && one_text_shape(vs@[1].1)
        &&& vs@[2].0@ == "PONG"@ && (vs@[2].1 matches Shape::Tuple(fs) && fs@.len() == 2
            && fs@[0] == opt_text_shape() && fs@[1] == Shape::Text)
        &&& vs@[3].0@ == "NICK"@ && one_text_shape(vs@[3].1)
        &&& vs@[4].0@ == "USER"@ && (vs@[4].1 matches Shape::Tuple(fs) && fs@.len() == 2
            && fs@[0] == Shape::Text && fs@[1] == Shape::Text)
        &&& vs@[5].0@ == "KICK"@ && (vs@[5].1 matches Shape::Tuple(fs) && fs@.len() == 3
            && fs@[0] == Shape::Text && fs@[1] == list_text_shape() && fs@[2]
            == opt_text_shape())
        &&& vs@[6].0@ == "TOPIC"@ && (vs@[6].1 matches Shape::Tuple(fs) && fs@.len() == 2
            && fs@[0] == Shape::Text && fs@[1] == opt_text_shape())
    }
}

fn one_text_shape_value() -> (s: Shape)
    ensures
        one_text_shape(s),
{
    let mut fs: Vec<Shape> = Vec::new();
    fs.push(Shape::Text);
    Shape::Tuple(fs)
}

/// Builds the shape a capability subcommand decodes against.
pub fn cap_shape() -> (s: Shape)
    ensures
        is_cap_shape(s),
{
    let mut variants: Vec<(String, Shape)> = Vec::new();
    variants.push((String::from_str("REQ"), one_text_shape_value()));
    variants.push((String::from_str("END"), Shape::Unit));
    Shape::Union(variants)
}

/// Builds the shape a command decodes against.
pub fn command_shape() -> (s: Shape)
    ensures
        is_command_shape(s),
{
    let mut variants: Vec<(String, Shape)> = Vec::new();
    variants.push((String::from_str("CAP"), cap_shape()));
    variants.push((String::from_str("AUTHENTICATE"), one_text_shape_value()));

    let mut pong: Vec<Shape> = Vec::new();
    pong.push(Shape::Optional(Box::new(Shape::Text)));
    pong.push(Shape::Text);
    variants.push((String::from_str("PONG"), Shape::Tuple(pong)));

    variants.push((String::from_str("NICK"), one_text_shape_value()));

    let mut user: Vec<Shape> = Vec::new();
    user.push(Shape::Text);
    user.push(Shape::Text);
    variants.push((String::from_str("USER"), Shape::Tuple(user)));

    let mut kick: Vec<Shape> = Vec::new();
    kick.push(Shape::Text);
    kick.push(Shape::List(Box::new(Shape::Text)));
    kick.push(Shape::Optional(Box::new(Shape::Text)));
    variants.push((String::from_str("KICK"), Shape::Tuple(kick)));

    let mut topic: Vec<Shape> = Vec::new();
    topic.push(Shape::Text);
    topic.push(Shape::Optional(Box::new(Shape::Text)));
    variants.push((String::from_str("TOPIC"), Shape::Tuple(topic)));

    Shape::Union(variants)
}

} // verus!
