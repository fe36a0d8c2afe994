//! The shape-driven encoder: walks a [`Value`] and appends wire tokens.
//!
//! Scalars become one token each; an absent optional contributes nothing; a
//! sequence is encoded item by item into a fresh accumulator and joined
//! with commas into a single token; a tagged union contributes its tag
//! token followed by its payload's tokens. Commas inside plain text are
//! not escaped: callers must not put literal commas into text that shares
//! a token pool with a sequence.
use vstd::prelude::*;

use crate::error::Error;
use crate::num::{i64_dec, u64_dec};
use crate::proto::{spec_value_of, spec_values_of, SpecValue, Value};
use crate::Message;

verus! {

/// The textual form of a boolean scalar. This codec renders booleans as
/// `true`/`false`, never as `1`/`0`.
pub open spec fn bool_text(b: bool) -> Seq<char> {
    if b {
        "true"@
    } else {
        "false"@
    }
}

/// All tokens of the first `n` values, concatenated in order.
pub open spec fn cat_tokens(vs: Seq<SpecValue>, n: int) -> Seq<Seq<char>>
    decreases vs, n,
{
    if n <= 0 || n > vs.len() {
        Seq::empty()
    } else {
        cat_tokens(vs, n - 1) + sv_tokens(vs[n - 1])
    }
}

/// The tokens `toks` joined into one text with a comma between each pair.
pub open spec fn join_commas(toks: Seq<Seq<char>>) -> Seq<char>
    decreases toks.len(),
{
    if toks.len() == 0 {
        Seq::empty()
    } else if toks.len() == 1 {
        toks[0]
    } else {
        toks[0] + seq![','] + join_commas(toks.drop_first())
    }
}

/// Whether the wire format can represent `v` at all: it cannot represent
/// map-like values.
pub open spec fn sv_ok(v: SpecValue) -> bool
    decreases v,
{
    match v {
        SpecValue::Text(_) => true,
        SpecValue::UInt(_) => true,
        SpecValue::Int(_) => true,
        SpecValue::Bool(_) => true,
        SpecValue::Char(_) => true,
        SpecValue::Unit => true,
        SpecValue::Maybe(o) => match o {
            Some(b) => sv_ok(*b),
            None => true,
        },
        SpecValue::List(vs) => all_ok(vs, vs.len() as int),
        SpecValue::Tuple(vs) => all_ok(vs, vs.len() as int),
        SpecValue::Variant(_, p) => sv_ok(*p),
        SpecValue::Dict(_) => false,
    }
}

/// Whether the first `n` values are all representable.
pub open spec fn all_ok(vs: Seq<SpecValue>, n: int) -> bool
    decreases vs, n,
{
    if n <= 0 || n > vs.len() {
        true
    } else {
        all_ok(vs, n - 1) && sv_ok(vs[n - 1])
    }
}

/// `all_ok` holds exactly when every value up to `n` is representable.
pub proof fn lemma_all_ok(vs: Seq<SpecValue>, n: int)
    requires
        0 <= n <= vs.len(),
    ensures
        all_ok(vs, n) <==> (forall|j: int| 0 <= j < n ==> sv_ok(#[trigger] vs[j])),
    decreases n,
{
    if n > 0 {
        lemma_all_ok(vs, n - 1);
    }
}

/// The wire tokens of `v`, when `sv_ok(v)` holds.
pub open spec fn sv_tokens(v: SpecValue) -> Seq<Seq<char>>
    decreases v,
{
    match v {
        SpecValue::Text(s) => seq![s],
        SpecValue::UInt(n) => seq![u64_dec(n as int)],
        SpecValue::Int(n) => seq![i64_dec(n as int)],
        SpecValue::Bool(b) => seq![bool_text(b)],
        SpecValue::Char(c) => seq![seq![c]],
        SpecValue::Unit => Seq::empty(),
        SpecValue::Maybe(o) => match o {
            Some(b) => sv_tokens(*b),
            None => Seq::empty(),
        },
        SpecValue::List(vs) => seq![join_commas(cat_tokens(vs, vs.len() as int))],
        SpecValue::Tuple(vs) => cat_tokens(vs, vs.len() as int),
        SpecValue::Variant(name, p) => seq![name] + sv_tokens(*p),
        SpecValue::Dict(_) => Seq::empty(),
    }
}

/// Appending one token to a joined text puts it after one more comma,
/// except onto an empty join.
proof fn lemma_join_push(toks: Seq<Seq<char>>, t: Seq<char>)
    ensures
        join_commas(toks.push(t)) == if toks.len() == 0 {
            t
        } else {
            join_commas(toks) + seq![','] + t
        },
    decreases toks.len(),
{
    let p = toks.push(t);
    if toks.len() == 0 {
        assert(p.len() == 1);
        assert(p[0] == t);
    } else if toks.len() == 1 {
        assert(p.len() == 2);
        assert(p.drop_first() =~= seq![t]);
        assert(join_commas(p) == p[0] + seq![','] + join_commas(seq![t]));
        assert(join_commas(seq![t]) == t);
    } else {
        assert(p.drop_first() =~= toks.drop_first().push(t));
        lemma_join_push(toks.drop_first(), t);
        assert(join_commas(p) == p[0] + seq![','] + join_commas(toks.drop_first().push(t)));
        assert((toks[0] + seq![',']) + (join_commas(toks.drop_first()) + seq![','] + t) =~= (
        toks[0] + seq![','] + join_commas(toks.drop_first())) + seq![','] + t);
    }
}

/// Relies on char::to_string: the returned string holds exactly the one
/// character it is called on.
#[verifier::external_body]
fn char_string(c: char) -> (r: String)
    ensures
        r@ == seq![c],
{
    c.to_string()
}

/// The token accumulator of one encode pass. `args` holds the command
/// token first, then the parameters, in order.
#[derive(Debug)]
pub struct Serializer {
    pub args: Vec<String>,
}

/// The isolated accumulator for one sequence: each item is encoded into a
/// fresh token list, and `end` joins everything with commas into a single
/// token of the parent.
#[derive(Debug)]
pub struct Sequence {
    pub parts: Vec<String>,
}

impl Default for Serializer {
    /// An empty accumulator.
    fn default() -> (s: Serializer)
        ensures
            s.args@.len() == 0,
    {
        Serializer { args: Vec::new() }
    }
}

impl Serializer {
    /// Encodes `value` into a fresh accumulator.
    pub fn new(value: &Value) -> (r: Result<Serializer, Error>)
        ensures
            match r {
                Ok(s) => sv_ok(value@) && s.args.deep_view() == sv_tokens(value@),
                Err(e) => !sv_ok(value@) && e is UnsupportedType,
            },
    {
        let mut ser = Serializer::default();
        proof {
            assert(ser.args.deep_view() =~= Seq::<Seq<char>>::empty());
        }
        match ser.encode(value) {
            Ok(()) => {
                proof {
                    assert(ser.args.deep_view() =~= sv_tokens(value@));
                }
                Ok(ser)
            },
            Err(e) => Err(e),
        }
    }

    /// Encodes one more value after whatever is already accumulated.
    pub fn argument(self, value: &Value) -> (r: Result<Serializer, Error>)
        ensures
            match r {
                Ok(s) => sv_ok(value@) && s.args.deep_view() == self.args.deep_view()
                    + sv_tokens(value@),
                Err(e) => !sv_ok(value@) && e is UnsupportedType,
            },
    {
        let mut ser = self;
        match ser.encode(value) {
            Ok(()) => Ok(ser),
            Err(e) => Err(e),
        }
    }

    /// Walks `v` and appends its tokens.
    #[verifier::loop_isolation(false)]
    pub fn encode(&mut self, v: &Value) -> (r: Result<(), Error>)
        ensures
            match r {
                Ok(()) => sv_ok(v@) && final (self).args.deep_view() == old(
                    self,
                ).args.deep_view() + sv_tokens(v@),
                Err(e) => !sv_ok(v@) && e is UnsupportedType,
            },
        decreases v, 0int,
    {
        let ghost before = self.args.deep_view();
        match v {
            Value::Text(s) => {
                self.args.push(s.clone());
                proof {
                    assert(self.args.deep_view() =~= before + seq![s@]);
                }
                Ok(())
            },
            Value::UInt(n) => {
                self.args.push(crate::num::u64_string(*n));
                proof {
                    assert(self.args.deep_view() =~= before + seq![u64_dec(*n as int)]);
                }
                Ok(())
            },
            Value::Int(n) => {
                self.args.push(crate::num::i64_string(*n));
                proof {
                    assert(self.args.deep_view() =~= before + seq![i64_dec(*n as int)]);
                }
                Ok(())
            },
            Value::Bool(b) => {
                let text = if *b {
                    String::from_str("true")
                } else {
                    String::from_str("false")
                };
                self.args.push(text);
                proof {
                    assert(self.args.deep_view() =~= before + seq![bool_text(*b)]);
                }
                Ok(())
            },
            Value::Char(c) => {
                self.args.push(char_string(*c));
                proof {
                    assert(self.args.deep_view() =~= before + seq![seq![*c]]);
                }
                Ok(())
            },
            Value::Unit => {
                proof {
                    assert(self.args.deep_view() =~= before + Seq::<Seq<char>>::empty());
                }
                Ok(())
            },
            Value::Maybe(o) => match o {
                Some(inner) => {
                    let r = self.encode(inner);
                    proof {
                        assert(v@ matches SpecValue::Maybe(so) && so == Some(
                            Box::new(spec_value_of(**inner)),
                        ));
                    }
                    r
                },
                None => {
                    proof {
                        assert(self.args.deep_view() =~= before + Seq::<Seq<char>>::empty());
                    }
                    Ok(())
                },
            },
            Value::Tuple(items) => {
                let ghost svs = spec_values_of(items@, items@.len() as int);
                proof {
                    crate::proto::lemma_spec_values_of_len(items@, items@.len() as int);
                }
                let n = items.len();
                let mut i: usize = 0;
                while i < n
                    invariant
                        0 <= i <= n,
                        n == items.len(),
                        svs == spec_values_of(items@, items@.len() as int),
                        svs.len() == n,
                        forall|j: int| 0 <= j < n ==> svs[j] == spec_value_of(items@[j]),
                        self.args.deep_view() == before + cat_tokens(svs, i as int),
                        forall|j: int| 0 <= j < i ==> sv_ok(#[trigger] svs[j]),
                    decreases n - i,
                {
                    let ghost mid = self.args.deep_view();
                    match self.encode(&items[i]) {
                        Ok(()) => {
                            proof {
                                assert(cat_tokens(svs, i + 1) == cat_tokens(svs, i as int)
                                    + sv_tokens(svs[i as int]));
                                assert(self.args.deep_view() =~= before + cat_tokens(
                                    svs,
                                    i + 1,
                                ));
                            }
                            i = i + 1;
                        },
                        Err(e) => {
                            proof {
                                assert(!sv_ok(svs[i as int]));
                                assert(v@ == SpecValue::Tuple(svs));
                                lemma_all_ok(svs, svs.len() as int);
                                assert(!sv_ok(v@));
                            }
                            return Err(e);
                        },
                    }
                }
                proof {
                    assert(v@ == SpecValue::Tuple(svs));
                    lemma_all_ok(svs, svs.len() as int);
                    assert(sv_ok(v@));
                    assert(sv_tokens(v@) == cat_tokens(svs, n as int));
                }
                Ok(())
            },
            Value::List(items) => {
                let ghost svs = spec_values_of(items@, items@.len() as int);
                proof {
                    crate::proto::lemma_spec_values_of_len(items@, items@.len() as int);
                }
                let mut sub = Sequence::new();
                let n = items.len();
                let mut i: usize = 0;
                while i < n
                    invariant
                        0 <= i <= n,
                        n == items.len(),
                        svs == spec_values_of(items@, items@.len() as int),
                        svs.len() == n,
                        forall|j: int| 0 <= j < n ==> svs[j] == spec_value_of(items@[j]),
                        sub.parts.deep_view() == cat_tokens(svs, i as int),
                        forall|j: int| 0 <= j < i ==> sv_ok(#[trigger] svs[j]),
                        self.args.deep_view() == before,
                    decreases n - i,
                {
                    match sub.element(&items[i]) {
                        Ok(()) => {
                            proof {
                                assert(cat_tokens(svs, i + 1) == cat_tokens(svs, i as int)
                                    + sv_tokens(svs[i as int]));
                            }
                            i = i + 1;
                        },
                        Err(e) => {
                            proof {
                                assert(!sv_ok(svs[i as int]));
                                assert(v@ == SpecValue::List(svs));
                                lemma_all_ok(svs, svs.len() as int);
                                assert(!sv_ok(v@));
                            }
                            return Err(e);
                        },
                    }
                }
                sub.end(self);
                proof {
                    assert(v@ == SpecValue::List(svs));
                    lemma_all_ok(svs, svs.len() as int);
                    assert(sv_ok(v@));
                    assert(self.args.deep_view() =~= before + seq![
                        join_commas(cat_tokens(svs, n as int)),
                    ]);
                }
                Ok(())
            },
            Value::Variant(name, payload) => {
                self.args.push(name.clone());
                proof {
                    assert(self.args.deep_view() =~= before + seq![name@]);
                }
                match self.encode(payload) {
                    Ok(()) => {
                        proof {
                            assert(before + seq![name@] + sv_tokens(spec_value_of(**payload))
                                =~= before + (seq![name@] + sv_tokens(spec_value_of(**payload))));
                        }
                        Ok(())
                    },
                    Err(e) => Err(e),
                }
            },
            Value::Dict(_) => Err(Error::UnsupportedType),
        }
    }

    /// Splits the accumulated tokens into a message: the first token is the
    /// command, the rest are the parameters. Fails with `Eof` when nothing
    /// was accumulated.
    pub fn to_message(&self) -> (r: Result<Message, Error>)
        ensures
            match r {
                Ok(m) => {
                    &&& self.args.deep_view().len() > 0
                    &&& m@.source is None
                    &&& m@.command == self.args.deep_view()[0]
                    &&& m@.parameters == self.args.deep_view().drop_first()
                },
                Err(e) => self.args.deep_view().len() == 0 && e is Eof,
            },
    {
        if self.args.len() == 0 {
            return Err(Error::Eof);
        }
        let command = self.args[0].clone();
        let mut parameters: Vec<String> = Vec::new();
        let n = self.args.len();
        let mut i: usize = 1;
        while i < n
            invariant
                1 <= i <= n,
                n == self.args.len(),
                parameters.deep_view() == self.args.deep_view().subrange(1, i as int),
            decreases n - i,
        {
            let ghost pdv = parameters.deep_view();
            let item = self.args[i].clone();
            proof {
                assert(item@ == self.args.deep_view()[i as int]);
            }
            parameters.push(item);
            proof {
                assert(parameters.deep_view() =~= pdv.push(item@));
                assert(pdv.push(item@) =~= self.args.deep_view().subrange(1, i as int + 1));
            }
            i = i + 1;
        }
        proof {
            assert(parameters.deep_view() =~= self.args.deep_view().drop_first());
        }
        Ok(Message { source: None, command, parameters })
    }
}

impl Sequence {
    /// A fresh, empty sequence accumulator.
    pub fn new() -> (s: Sequence)
        ensures
            s.parts.deep_view() == Seq::<Seq<char>>::empty(),
    {
        let s = Sequence { parts: Vec::new() };
        proof {
            assert(s.parts.deep_view() =~= Seq::<Seq<char>>::empty());
        }
        s
    }

    /// Encodes one item into its own fresh token list and appends those
    /// tokens here. On failure the accumulator is unchanged.
    pub fn element(&mut self, v: &Value) -> (r: Result<(), Error>)
        ensures
            match r {
                Ok(()) => sv_ok(v@) && final (self).parts.deep_view() == old(
                    self,
                ).parts.deep_view() + sv_tokens(v@),
                Err(e) => !sv_ok(v@) && e is UnsupportedType && *final (self) == *old(self),
            },
        decreases v, 1int,
    {
        let ghost before = self.parts.deep_view();
        let mut ser = Serializer::default();
        match ser.encode(v) {
            Ok(()) => {
                let mut fresh = ser.args;
                self.parts.append(&mut fresh);
                proof {
                    assert(ser.args.deep_view() =~= Seq::<Seq<char>>::empty() + sv_tokens(v@));
                    assert(self.parts.deep_view() =~= before + sv_tokens(v@));
                }
                Ok(())
            },
            Err(e) => Err(e),
        }
    }

    /// Joins the accumulated item tokens with commas and pushes the single
    /// resulting token onto `ser`.
    pub fn end(self, ser: &mut Serializer)
        ensures
            final (ser).args.deep_view() == old(ser).args.deep_view() + seq![
                join_commas(self.parts.deep_view()),
            ],
    {
        let ghost before = ser.args.deep_view();
        let joined = join_commas_exec(&self.parts);
        ser.args.push(joined);
        proof {
            assert(ser.args.deep_view() =~= before + seq![join_commas(self.parts.deep_view())]);
        }
    }
}

/// Joins `parts` with a comma between each adjacent pair.
fn join_commas_exec(parts: &Vec<String>) -> (r: String)
    ensures
        r@ == join_commas(parts.deep_view()),
{
    let ghost dv = parts.deep_view();
    let mut out = String::new();
    let n = parts.len();
    let mut i: usize = 0;
    proof {
        assert(dv.take(0) =~= Seq::<Seq<char>>::empty());
    }
    while i < n
        invariant
            0 <= i <= n,
            n == parts.len(),
            dv == parts.deep_view(),
            dv.len() == n,
            out@ == join_commas(dv.take(i as int)),
        decreases n - i,
    {
        proof {
            reveal_strlit(",");
        }
        if i > 0 {
            out.append(",");
        }
        out.append(parts[i].as_str());
        proof {
            assert(dv.take(i + 1) =~= dv.take(i as int).push(dv[i as int]));
            lemma_join_push(dv.take(i as int), dv[i as int]);
            assert(","@ =~= seq![',']);
        }
        i = i + 1;
    }
    proof {
        assert(dv.take(n as int) =~= dv);
    }
    out
}

} // verus!
