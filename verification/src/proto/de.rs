//! The shape-driven decoder: walks a [`Shape`] against a token cursor and
//! rebuilds the [`Value`] the encoder produced.
//!
//! Two ambiguities of the wire format are resolved here. An optional field
//! is taken as present exactly when the cursor still holds at least as
//! many tokens as the remaining mandatory fields demand, counting the
//! optional one itself — a purely arithmetic rule with no marker token.
//! A sequence is decoded from a single token split on commas; the split
//! segments form a flat pool consumed in order by the items' fields, and
//! one trailing empty segment is dropped, so an empty token is an empty
//! sequence.
use vstd::prelude::*;

use crate::error::Error;
use crate::num::{i64_text_ok, i64_text_val, u64_text_ok, u64_text_val};
use crate::proto::{spec_values_of, Shape, SpecValue, Value};
use crate::Message;

verus! {

/// The abstract cursor state: the unconsumed tokens in order, and the
/// running count of still-mandatory fields.
pub struct DecState {
    pub toks: Seq<Seq<char>>,
    pub fields: nat,
}

/// The kind of a decode failure, with detail text abstracted away.
pub enum ErrKind {
    EndOfInput,
    Unsupported,
    Malformed,
}

/// The outcome of decoding one shape.
pub enum DecOut {
    Good(SpecValue, DecState),
    Bad(ErrKind),
}

/// The outcome of decoding the fields of a tuple from some index on.
pub enum FieldsOut {
    GoodF(Seq<SpecValue>, DecState),
    BadF(ErrKind),
}

/// The outcome of decoding sequence items from a segment pool.
pub enum ItemsOut {
    GoodI(Seq<SpecValue>),
    BadI(ErrKind),
}

/// Which spec-level failure kind an executable error corresponds to.
pub open spec fn err_matches(e: Error, k: ErrKind) -> bool {
    match e {
        Error::Eof => k is EndOfInput,
        Error::UnsupportedType => k is Unsupported,
        Error::Deserialize(_) => k is Malformed,
        Error::Serialize(_) => false,
    }
}

/// The next token and the cursor after it.
pub open spec fn take_tok(st: DecState) -> Option<(Seq<char>, DecState)> {
    if st.toks.len() == 0 {
        None
    } else {
        Some((st.toks[0], DecState { toks: st.toks.drop_first(), fields: st.fields }))
    }
}

/// `s` split at every comma: one more segment than commas.
pub open spec fn split_all(s: Seq<char>) -> Seq<Seq<char>>
    decreases s.len(),
{
    if s.len() == 0 {
        seq![Seq::<char>::empty()]
    } else if s[0] == ',' {
        seq![Seq::<char>::empty()] + split_all(s.drop_first())
    } else {
        let r = split_all(s.drop_first());
        seq![seq![s[0]] + r[0]] + r.drop_first()
    }
}

/// The segment pool of one sequence token: the comma-split segments, with
/// a single trailing empty segment dropped, so that the empty token gives
/// an empty pool.
pub open spec fn split_commas(s: Seq<char>) -> Seq<Seq<char>> {
    let a = split_all(s);
    if a.len() > 0 && a.last().len() == 0 {
        a.drop_last()
    } else {
        a
    }
}

/// The worst growth of the mandatory-field counter while decoding `s`.
pub open spec fn nest_bound(s: Shape) -> nat
    decreases s,
{
    match s {
        Shape::Text => 0,
        Shape::UInt => 0,
        Shape::Int => 0,
        Shape::Bool => 0,
        Shape::Char => 0,
        Shape::Unit => 0,
        Shape::Optional(inner) => nest_bound(*inner),
        Shape::List(inner) => nest_bound(*inner),
        Shape::Tuple(fs) => fs@.len() + max_nest(fs@, fs@.len() as int),
        Shape::Union(vs) => max_nest_pairs(vs@, vs@.len() as int),
        Shape::Dict => 0,
        Shape::Dynamic => 0,
    }
}

pub open spec fn max_nest(ss: Seq<Shape>, n: int) -> nat
    decreases ss, n,
{
    if n <= 0 || n > ss.len() {
        0
    } else {
        let rest = max_nest(ss, n - 1);
        let this = nest_bound(ss[n - 1]);
        if this > rest {
            this
        } else {
            rest
        }
    }
}

pub open spec fn max_nest_pairs(vs: Seq<(String, Shape)>, n: int) -> nat
    decreases vs, n,
{
    if n <= 0 || n > vs.len() {
        0
    } else {
        let rest = max_nest_pairs(vs, n - 1);
        let this = nest_bound(vs[n - 1].1);
        if this > rest {
            this
        } else {
            rest
        }
    }
}

pub proof fn lemma_max_nest(ss: Seq<Shape>, n: int)
    requires
        0 <= n <= ss.len(),
    ensures
        forall|j: int| 0 <= j < n ==> nest_bound(#[trigger] ss[j]) <= max_nest(ss, n),
    decreases n,
{
    if n > 0 {
        lemma_max_nest(ss, n - 1);
    }
}

pub proof fn lemma_max_nest_pairs(vs: Seq<(String, Shape)>, n: int)
    requires
        0 <= n <= vs.len(),
    ensures
        forall|j: int| 0 <= j < n ==> nest_bound(#[trigger] vs[j].1) <= max_nest_pairs(vs, n),
    decreases n,
{
    if n > 0 {
        lemma_max_nest_pairs(vs, n - 1);
    }
}

/// What decoding shape `s` from state `st` yields. This is the decoder's
/// whole meaning; the executable decoder is proved equal to it.
pub open spec fn spec_decode(s: Shape, st: DecState) -> DecOut
    decreases s, st.toks.len(), 0int,
{
    match s {
        Shape::Text => match take_tok(st) {
            None => DecOut::Bad(ErrKind::EndOfInput),
            Some((t, st2)) => DecOut::Good(SpecValue::Text(t), st2),
        },
        Shape::UInt => match take_tok(st) {
            None => DecOut::Bad(ErrKind::EndOfInput),
            Some((t, st2)) => if u64_text_ok(t) {
                DecOut::Good(SpecValue::UInt(u64_text_val(t) as u64), st2)
            } else {
                DecOut::Bad(ErrKind::Malformed)
            },
        },
        Shape::Int => match take_tok(st) {
            None => DecOut::Bad(ErrKind::EndOfInput),
            Some((t, st2)) => if i64_text_ok(t) {
                DecOut::Good(SpecValue::Int(i64_text_val(t) as i64), st2)
            } else {
                DecOut::Bad(ErrKind::Malformed)
            },
        },
        Shape::Bool => match take_tok(st) {
            None => DecOut::Bad(ErrKind::EndOfInput),
            Some((t, st2)) => if t == "true"@ {
                DecOut::Good(SpecValue::Bool(true), st2)
            } else if t == "false"@ {
                DecOut::Good(SpecValue::Bool(false), st2)
            } else {
                DecOut::Bad(ErrKind::Malformed)
            },
        },
        Shape::Char => match take_tok(st) {
            None => DecOut::Bad(ErrKind::EndOfInput),
            Some((t, st2)) => if t.len() == 1 {
                DecOut::Good(SpecValue::Char(t[0]), st2)
            } else {
                DecOut::Bad(ErrKind::Malformed)
            },
        },
        Shape::Unit => DecOut::Good(SpecValue::Unit, st),
        Shape::Optional(inner) => if st.toks.len() >= st.fields {
            match spec_decode(*inner, st) {
                DecOut::Good(v, st2) => DecOut::Good(
                    SpecValue::Maybe(Some(Box::new(v))),
                    st2,
                ),
                DecOut::Bad(k) => DecOut::Bad(k),
            }
        } else {
            DecOut::Good(SpecValue::Maybe(None), st)
        },
        Shape::List(inner) => match take_tok(st) {
            None => DecOut::Bad(ErrKind::EndOfInput),
            Some((t, st2)) => match spec_items(*inner, split_commas(t)) {
                ItemsOut::GoodI(vs) => DecOut::Good(SpecValue::List(vs), st2),
                ItemsOut::BadI(k) => DecOut::Bad(k),
            },
        },
        Shape::Tuple(fs) => {
            let entry = DecState { toks: st.toks, fields: st.fields + fs@.len() };
            match spec_fields(fs@, 0, entry) {
                FieldsOut::GoodF(vs, st2) => DecOut::Good(SpecValue::Tuple(vs), st2),
                FieldsOut::BadF(k) => DecOut::Bad(k),
            }
        },
        Shape::Union(variants) => match take_tok(st) {
            None => DecOut::Bad(ErrKind::EndOfInput),
            Some((tag, st2)) => spec_union(variants@, tag, 0, st2),
        },
        Shape::Dict => DecOut::Bad(ErrKind::Unsupported),
        Shape::Dynamic => DecOut::Bad(ErrKind::Unsupported),
    }
}

/// Decoding the fields of a tuple from index `i` on: each field is decoded
/// and then counted off the mandatory-field counter.
pub open spec fn spec_fields(ss: Seq<Shape>, i: int, st: DecState) -> FieldsOut
    decreases ss, ss.len() - i, 1int,
{
    if i < 0 || i >= ss.len() {
        FieldsOut::GoodF(Seq::empty(), st)
    } else {
        match spec_decode(ss[i], st) {
            DecOut::Good(v, st2) => {
                let st3 = DecState {
                    toks: st2.toks,
                    fields: if st2.fields >= 1 {
                        (st2.fields - 1) as nat
                    } else {
                        0
                    },
                };
                match spec_fields(ss, i + 1, st3) {
                    FieldsOut::GoodF(vs, st4) => FieldsOut::GoodF(seq![v] + vs, st4),
                    FieldsOut::BadF(k) => FieldsOut::BadF(k),
                }
            },
            DecOut::Bad(k) => FieldsOut::BadF(k),
        }
    }
}

/// Decoding items from a segment pool until it is exhausted. An item that
/// consumes nothing still costs one segment, so the pool always shrinks.
pub open spec fn spec_items(inner: Shape, toks: Seq<Seq<char>>) -> ItemsOut
    decreases inner, toks.len(), 1int,
{
    if toks.len() == 0 {
        ItemsOut::GoodI(Seq::empty())
    } else {
        match spec_decode(inner, DecState { toks, fields: 0 }) {
            DecOut::Good(v, st2) => {
                let rem = if st2.toks.len() < toks.len() {
                    st2.toks
                } else {
                    toks.drop_first()
                };
                match spec_items(inner, rem) {
                    ItemsOut::GoodI(vs) => ItemsOut::GoodI(seq![v] + vs),
                    ItemsOut::BadI(k) => ItemsOut::BadI(k),
                }
            },
            DecOut::Bad(k) => ItemsOut::BadI(k),
        }
    }
}

/// Trying the variants of a union from index `i` on: the first variant
/// whose name equals the tag decodes the payload; no match is a failure.
pub open spec fn spec_union(vs: Seq<(String, Shape)>, tag: Seq<char>, i: int, st: DecState) -> DecOut
    decreases vs, vs.len() - i, 1int,
{
    if i < 0 || i >= vs.len() {
        DecOut::Bad(ErrKind::Malformed)
    } else if vs[i].0@ == tag {
        match spec_decode(vs[i].1, st) {
            DecOut::Good(v, st2) => DecOut::Good(SpecValue::Variant(tag, Box::new(v)), st2),
            DecOut::Bad(k) => DecOut::Bad(k),
        }
    } else {
        spec_union(vs, tag, i + 1, st)
    }
}

/// A successful decode leaves the mandatory-field counter as it found it
/// and consumes tokens only from the front.
pub proof fn lemma_decode_frame(s: Shape, st: DecState)
    ensures
        spec_decode(s, st) matches DecOut::Good(v, st2) ==> {
            &&& st2.fields == st.fields
            &&& st2.toks.len() <= st.toks.len()
            &&& st2.toks == st.toks.skip(st.toks.len() - st2.toks.len())
        },
    decreases s, st.toks.len(), 0int,
{
    match s {
        Shape::Optional(inner) => {
            if st.toks.len() >= st.fields {
                lemma_decode_frame(*inner, st);
            } else {
                assert(st.toks.skip(0) =~= st.toks);
            }
        },
        Shape::Tuple(fs) => {
            let entry = DecState { toks: st.toks, fields: st.fields + fs@.len() };
            lemma_fields_frame(fs@, 0, entry);
        },
        Shape::Union(variants) => {
            if st.toks.len() > 0 {
                let st2 = DecState { toks: st.toks.drop_first(), fields: st.fields };
                assert(st.toks.drop_first() =~= st.toks.skip(1));
                lemma_union_frame(variants@, st.toks[0], 0, st2);
                match spec_union(variants@, st.toks[0], 0, st2) {
                    DecOut::Good(v, st3) => {
                        lemma_skip_skip(st.toks, 1, st2.toks.len() - st3.toks.len());
                    },
                    DecOut::Bad(_) => {},
                }
            }
        },
        Shape::Unit => {
            assert(st.toks.skip(0) =~= st.toks);
        },
        _ => {
            if st.toks.len() > 0 {
                assert(st.toks.drop_first() =~= st.toks.skip(1));
            }
        },
    }
}

proof fn lemma_skip_skip(s: Seq<Seq<char>>, a: int, b: int)
    requires
        0 <= a,
        0 <= b,
        a + b <= s.len(),
    ensures
        s.skip(a).skip(b) == s.skip(a + b),
{
    assert(s.skip(a).skip(b) =~= s.skip(a + b));
}

proof fn lemma_fields_frame(ss: Seq<Shape>, i: int, st: DecState)
    requires
        st.fields >= ss.len() - i,
    ensures
        spec_fields(ss, i, st) matches FieldsOut::GoodF(vs, st2) ==> {
            &&& 0 <= i <= ss.len() ==> st2.fields == st.fields - (ss.len() - i)
            &&& (i < 0 || i > ss.len()) ==> st2 == st
            &&& vs.len() == if 0 <= i <= ss.len() {
                ss.len() - i
            } else {
                0int
            }
            &&& st2.toks.len() <= st.toks.len()
            &&& st2.toks == st.toks.skip(st.toks.len() - st2.toks.len())
        },
    decreases ss, ss.len() - i, 1int,
{
    if 0 <= i < ss.len() {
        lemma_decode_frame(ss[i], st);
        match spec_decode(ss[i], st) {
            DecOut::Good(v, st2) => {
                let st3 = DecState {
                    toks: st2.toks,
                    fields: if st2.fields >= 1 {
                        (st2.fields - 1) as nat
                    } else {
                        0
                    },
                };
                lemma_fields_frame(ss, i + 1, st3);
                match spec_fields(ss, i + 1, st3) {
                    FieldsOut::GoodF(vs, st4) => {
                        lemma_skip_skip(
                            st.toks,
                            st.toks.len() - st2.toks.len(),
                            st2.toks.len() - st4.toks.len(),
                        );
                    },
                    FieldsOut::BadF(_) => {},
                }
            },
            DecOut::Bad(_) => {},
        }
    } else {
        assert(st.toks.skip(0) =~= st.toks);
    }
}

proof fn lemma_union_frame(vs: Seq<(String, Shape)>, tag: Seq<char>, i: int, st: DecState)
    ensures
        spec_union(vs, tag, i, st) matches DecOut::Good(v, st2) ==> {
            &&& st2.fields == st.fields
            &&& st2.toks.len() <= st.toks.len()
            &&& st2.toks == st.toks.skip(st.toks.len() - st2.toks.len())
        },
    decreases vs, vs.len() - i, 1int,
{
    if 0 <= i < vs.len() {
        if vs[i].0@ == tag {
            lemma_decode_frame(vs[i].1, st);
        } else {
            lemma_union_frame(vs, tag, i + 1, st);
        }
    }
}

/// A comma-free text is one whole segment.
pub proof fn lemma_split_all_whole(a: Seq<char>)
    requires
        !a.contains(','),
    ensures
        split_all(a) == seq![a],
    decreases a.len(),
{
    if a.len() > 0 {
        assert(a[0] != ',') by {
            assert(a.contains(a[0]));
        }
        assert(!a.drop_first().contains(',')) by {
            if a.drop_first().contains(',') {
                let k = choose|k: int| 0 <= k < a.drop_first().len() && a.drop_first()[k] == ',';
                assert(a[k + 1] == ',');
                assert(a.contains(','));
            }
        }
        lemma_split_all_whole(a.drop_first());
        assert(split_all(a) =~= seq![seq![a[0]] + a.drop_first()]);
        assert(seq![a[0]] + a.drop_first() =~= a);
        assert(split_all(a) =~= seq![a]);
    } else {
        assert(a =~= Seq::<char>::empty());
        assert(split_all(a) =~= seq![a]);
    }
}

/// Splitting starts with the comma-free segment before the first comma.
pub proof fn lemma_split_all_step(a: Seq<char>, rest: Seq<char>)
    requires
        !a.contains(','),
    ensures
        split_all(a + seq![','] + rest) == seq![a] + split_all(rest),
    decreases a.len(),
{
    let s = a + seq![','] + rest;
    if a.len() == 0 {
        assert(a =~= Seq::<char>::empty());
        assert(s =~= seq![','] + rest);
        assert(s[0] == ',');
        assert(s.drop_first() =~= rest);
        assert(split_all(s) == seq![Seq::<char>::empty()] + split_all(s.drop_first()));
        assert(seq![Seq::<char>::empty()] + split_all(s.drop_first()) =~= seq![a] + split_all(
            rest,
        ));
    } else {
        assert(s[0] == a[0]);
        assert(a[0] != ',') by {
            assert(a.contains(a[0]));
        }
        assert(!a.drop_first().contains(',')) by {
            if a.drop_first().contains(',') {
                let k = choose|k: int| 0 <= k < a.drop_first().len() && a.drop_first()[k] == ',';
                assert(a[k + 1] == ',');
                assert(a.contains(','));
            }
        }
        assert(s.drop_first() =~= a.drop_first() + seq![','] + rest);
        lemma_split_all_step(a.drop_first(), rest);
        let r = split_all(s.drop_first());
        assert(r == seq![a.drop_first()] + split_all(rest));
        assert(r[0] == a.drop_first());
        assert(seq![s[0]] + r[0] =~= a);
        assert(r.drop_first() =~= split_all(rest));
        assert(split_all(s) == seq![seq![s[0]] + r[0]] + r.drop_first());
        assert(seq![seq![s[0]] + r[0]] + r.drop_first() =~= seq![a] + split_all(rest));
    }
}

pub proof fn lemma_split_all_nonempty(s: Seq<char>)
    ensures
        split_all(s).len() >= 1,
    decreases s.len(),
{
    if s.len() > 0 {
        lemma_split_all_nonempty(s.drop_first());
    }
}

/// Splits `s` on commas and drops one trailing empty segment.
fn split_token(s: &str) -> (r: Vec<String>)
    ensures
        r.deep_view() == split_commas(s@),
{
    let n = s.unicode_len();
    let mut segs: Vec<String> = Vec::new();
    let mut start: usize = 0;
    let mut i: usize = 0;
    proof {
        assert(s@.skip(0) =~= s@);
        assert(segs.deep_view() =~= Seq::<Seq<char>>::empty());
    }
    while i < n
        invariant
            0 <= start <= i <= n,
            n == s@.len(),
            split_all(s@) == segs.deep_view() + split_all(s@.skip(start as int)),
            forall|j: int| start <= j < i ==> s@[j] != ',',
        decreases n - i,
    {
        if s.get_char(i) == ',' {
            let seg = s.substring_char(start, i);
            let ghost before = segs.deep_view();
            segs.push(String::from_str(seg));
            proof {
                let a = s@.subrange(start as int, i as int);
                assert(!a.contains(',')) by {
                    if a.contains(',') {
                        let k = choose|k: int| 0 <= k < a.len() && a[k] == ',';
                        assert(s@[start + k] == ',');
                    }
                }
                assert(s@.skip(start as int) =~= a + seq![','] + s@.skip(i + 1));
                lemma_split_all_step(a, s@.skip(i + 1));
                assert(segs.deep_view() =~= before.push(a));
                assert(before.push(a) + split_all(s@.skip(i + 1)) =~= before + (seq![a]
                    + split_all(s@.skip(i + 1))));
            }
            start = i + 1;
        }
        i = i + 1;
    }
    let last = s.substring_char(start, n);
    let ghost before = segs.deep_view();
    segs.push(String::from_str(last));
    proof {
        let a = s@.subrange(start as int, n as int);
        assert(a =~= s@.skip(start as int));
        assert(!a.contains(',')) by {
            if a.contains(',') {
                let k = choose|k: int| 0 <= k < a.len() && a[k] == ',';
                assert(s@[start + k] == ',');
            }
        }
        lemma_split_all_whole(a);
        assert(segs.deep_view() =~= before.push(a));
        assert(before.push(a) =~= before + seq![a]);
        assert(segs.deep_view() =~= split_all(s@));
    }
    let m = segs.len();
    proof {
        lemma_split_all_nonempty(s@);
    }
    if segs[m - 1].as_str().is_empty() {
        let ghost whole = segs.deep_view();
        segs.pop();
        proof {
            assert(segs.deep_view() =~= whole.drop_last());
        }
    }
    segs
}

/// Consumes `v` and returns its elements in reverse order.
fn reversed(v: Vec<String>) -> (r: Vec<String>)
    ensures
        r@ == v@.reverse(),
{
    let ghost v0 = v@;
    let mut v = v;
    let mut r: Vec<String> = Vec::new();
    proof {
        assert(r@ =~= v0.skip(v0.len() as int).reverse());
    }
    while v.len() > 0
        invariant
            v@.len() <= v0.len(),
            v@ == v0.take(v@.len() as int),
            r@ == v0.skip(v@.len() as int).reverse(),
        decreases v.len(),
    {
        let ghost k = v@.len() as int;
        match v.pop() {
            Some(x) => {
                proof {
                    assert(x == v0[k - 1]);
                    assert(v@ =~= v0.take(k - 1));
                }
                r.push(x);
                proof {
                    assert(r@ =~= v0.skip(k - 1).reverse());
                }
            },
            None => {},
        }
    }
    proof {
        assert(v0.skip(0) =~= v0);
    }
    r
}

/// The token cursor and decode state of one decode pass: the head token
/// (the command, until it is taken), the remaining parameter tokens as a
/// reversed stack, and the running mandatory-field counter.
#[derive(Debug)]
pub struct Deserializer {
    head: Option<String>,
    rest: Vec<String>,
    fields: usize,
}

impl View for Deserializer {
    type V = DecState;

    closed spec fn view(&self) -> DecState {
        DecState {
            toks: (match self.head {
                Some(h) => seq![h@],
                None => Seq::<Seq<char>>::empty(),
            }) + self.rest.deep_view().reverse(),
            fields: self.fields as nat,
        }
    }
}

impl Deserializer {
    /// The machine-size bound the cursor representation needs.
    pub closed spec fn inv(self) -> bool {
        self.head is Some ==> self.rest@.len() < usize::MAX
    }

    /// Wraps a message for decoding: the command becomes token zero,
    /// followed by the parameters in order.
    pub fn from_message(msg: Message) -> (d: Deserializer)
        requires
            msg.parameters@.len() < usize::MAX,
        ensures
            d.inv(),
            d@.toks == seq![msg@.command] + msg@.parameters,
            d@.fields == 0,
    {
        let rest = reversed(msg.parameters);
        let d = Deserializer { head: Some(msg.command), rest, fields: 0 };
        proof {
            assert(d.rest.deep_view().reverse() =~= msg.parameters.deep_view());
            assert(d@.toks =~= seq![msg@.command] + msg@.parameters);
        }
        d
    }

    /// How many tokens remain unconsumed.
    pub fn available(&self) -> (n: usize)
        requires
            self.inv(),
        ensures
            n == self@.toks.len(),
    {
        match &self.head {
            Some(_) => self.rest.len() + 1,
            None => self.rest.len(),
        }
    }

    /// Takes the next token: the head first, then the parameters in their
    /// original order. Fails with `Eof` once nothing remains.
    pub fn read_part(&mut self) -> (r: Result<String, Error>)
        requires
            old(self).inv(),
        ensures
            final (self).inv(),
            match r {
                Ok(t) => {
                    &&& old(self)@.toks.len() > 0
                    &&& t@ == old(self)@.toks[0]
                    &&& final (self)@.toks == old(self)@.toks.drop_first()
                    &&& final (self)@.fields == old(self)@.fields
                },
                Err(e) => {
                    &&& old(self)@.toks.len() == 0
                    &&& e is Eof
                    &&& final (self)@ == old(self)@
                },
            },
    {
        let taken = self.head.take();
        match taken {
            Some(t) => {
                proof {
                    assert(old(self)@.toks.len() > 0);
                    assert(t@ == old(self)@.toks[0]);
                    assert(self@.toks =~= old(self)@.toks.drop_first());
                }
                Ok(t)
            },
            None => {
                let ghost dv0 = self.rest.deep_view();
                match self.rest.pop() {
                    Some(t) => {
                        proof {
                            assert(t@ == dv0.last());
                            assert(self.rest.deep_view() =~= dv0.drop_last());
                            assert(dv0.last() == old(self)@.toks[0]);
                            assert(self@.toks =~= old(self)@.toks.drop_first());
                        }
                        Ok(t)
                    },
                    None => {
                        proof {
                            assert(self.rest.deep_view() =~= Seq::<Seq<char>>::empty());
                            assert(self@.toks =~= Seq::<Seq<char>>::empty());
                            assert(old(self)@.toks =~= Seq::<Seq<char>>::empty());
                        }
                        Err(Error::Eof)
                    },
                }
            },
        }
    }

    /// Decodes one value of shape `shape` off the cursor, exactly as
    /// [`spec_decode`] describes.
    #[verifier::loop_isolation(false)]
    pub fn deserialize(&mut self, shape: &Shape) -> (r: Result<Value, Error>)
        requires
            old(self).inv(),
            old(self)@.fields + nest_bound(*shape) <= usize::MAX,
        ensures
            final (self).inv(),
            match r {
                Ok(v) => spec_decode(*shape, old(self)@) == DecOut::Good(v@, final (self)@),
                Err(e) => ({
                    &&& spec_decode(*shape, old(self)@) is Bad
                    &&& (spec_decode(*shape, old(self)@) matches DecOut::Bad(k) ==> err_matches(
                        e,
                        k,
                    ))
                }),
            },
        decreases *shape, 0int, 0int,
    {
        let ghost st0 = self@;
        match shape {
            Shape::Text => match self.read_part() {
                Ok(t) => {
                    proof {
                        assert(self@ == DecState { toks: st0.toks.drop_first(), fields: st0.fields });
                    }
                    Ok(Value::Text(t))
                },
                Err(e) => Err(e),
            },
            Shape::UInt => {
                let t = match self.read_part() {
                    Ok(t) => t,
                    Err(e) => {
                        return Err(e);
                    },
                };
                match crate::num::parse_u64(t.as_str()) {
                    Ok(nv) => {
                        proof {
                            assert(self@ == DecState {
                                toks: st0.toks.drop_first(),
                                fields: st0.fields,
                            });
                        }
                        Ok(Value::UInt(nv))
                    },
                    Err(e) => Err(e),
                }
            },
            Shape::Int => {
                let t = match self.read_part() {
                    Ok(t) => t,
                    Err(e) => {
                        return Err(e);
                    },
                };
                match crate::num::parse_i64(t.as_str()) {
                    Ok(nv) => {
                        proof {
                            assert(self@ == DecState {
                                toks: st0.toks.drop_first(),
                                fields: st0.fields,
                            });
                        }
                        Ok(Value::Int(nv))
                    },
                    Err(e) => Err(e),
                }
            },
            Shape::Bool => {
                let t = match self.read_part() {
                    Ok(t) => t,
                    Err(e) => {
                        return Err(e);
                    },
                };
                proof {
                    assert(self@ == DecState { toks: st0.toks.drop_first(), fields: st0.fields });
                }
                if t == String::from_str("true") {
                    Ok(Value::Bool(true))
                } else if t == String::from_str("false") {
                    Ok(Value::Bool(false))
                } else {
                    Err(Error::malformed(t))
                }
            },
            Shape::Char => {
                let t = match self.read_part() {
                    Ok(t) => t,
                    Err(e) => {
                        return Err(e);
                    },
                };
                proof {
                    assert(self@ == DecState { toks: st0.toks.drop_first(), fields: st0.fields });
                }
                if t.as_str().unicode_len() == 1 {
                    let c = t.as_str().get_char(0);
                    proof {
                        assert(t@ =~= seq![t@[0]]);
                    }
                    Ok(Value::Char(c))
                } else {
                    Err(Error::malformed(t))
                }
            },
            Shape::Unit => {
                proof {
                    assert(self@ == st0);
                }
                Ok(Value::Unit)
            },
            Shape::Optional(inner) => {
                let avail = self.available();
                if avail >= self.fields {
                    match self.deserialize(inner) {
                        Ok(v) => Ok(Value::Maybe(Some(Box::new(v)))),
                        Err(e) => Err(e),
                    }
                } else {
                    proof {
                        assert(self@ == st0);
                    }
                    Ok(Value::Maybe(None))
                }
            },
            Shape::List(inner) => {
                let t = match self.read_part() {
                    Ok(t) => t,
                    Err(e) => {
                        return Err(e);
                    },
                };
                let ghost st1 = self@;
                let segs = split_token(t.as_str());
                let rest = reversed(segs);
                let mut sub = Deserializer { head: None, rest, fields: 0 };
                proof {
                    assert(sub.rest.deep_view().reverse() =~= split_commas(t@));
                    assert(sub@.toks =~= split_commas(t@));
                    assert(sub@.fields == 0);
                }
                match decode_items(&mut sub, inner) {
                    Ok(items) => {
                        proof {
                            crate::proto::lemma_spec_values_of_len(
                                items@,
                                items@.len() as int,
                            );
                            assert(spec_values_of(items@, items@.len() as int)
                                =~= items.deep_view());
                            assert(self@ == st1);
                        }
                        Ok(Value::List(items))
                    },
                    Err(e) => Err(e),
                }
            },
            Shape::Tuple(fs) => {
                proof {
                    lemma_max_nest(fs@, fs@.len() as int);
                }
                let n = fs.len();
                self.fields = self.fields + n;
                let ghost entry = self@;
                match self.decode_fields(fs, 0) {
                    Ok(vs) => {
                        proof {
                            crate::proto::lemma_spec_values_of_len(vs@, vs@.len() as int);
                            assert(spec_values_of(vs@, vs@.len() as int) =~= vs.deep_view());
                        }
                        Ok(Value::Tuple(vs))
                    },
                    Err(e) => Err(e),
                }
            },
            Shape::Union(variants) => {
                let tag = match self.read_part() {
                    Ok(t) => t,
                    Err(e) => {
                        return Err(e);
                    },
                };
                let ghost st1 = self@;
                proof {
                    lemma_max_nest_pairs(variants@, variants@.len() as int);
                }
                let n = variants.len();
                let mut i: usize = 0;
                while i < n
                    invariant
                        0 <= i <= n,
                        self@ == st1,
                        self.inv(),
                        spec_union(variants@, tag@, 0, st1) == spec_union(
                            variants@,
                            tag@,
                            i as int,
                            st1,
                        ),
                    decreases n - i,
                {
                    let pair = &variants[i];
                    if pair.0 == tag {
                        match self.deserialize(&pair.1) {
                            Ok(v) => {
                                return Ok(Value::Variant(tag, Box::new(v)));
                            },
                            Err(e) => {
                                return Err(e);
                            },
                        }
                    }
                    i = i + 1;
                }
                Err(Error::unknown_variant(tag))
            },
            Shape::Dict => Err(Error::UnsupportedType),
            Shape::Dynamic => Err(Error::UnsupportedType),
        }
    }

    /// Decodes the fields of a tuple from index `i` on, counting each one
    /// off the mandatory-field counter once decoded.
    fn decode_fields(&mut self, ss: &Vec<Shape>, i: usize) -> (r: Result<Vec<Value>, Error>)
        requires
            old(self).inv(),
            i <= ss@.len(),
            old(self)@.fields >= ss@.len() - i,
            forall|j: int|
                i <= j < ss@.len() ==> old(self)@.fields + nest_bound(#[trigger] ss@[j])
                    <= usize::MAX,
        ensures
            final (self).inv(),
            match r {
                Ok(vs) => spec_fields(ss@, i as int, old(self)@) == FieldsOut::GoodF(
                    vs.deep_view(),
                    final (self)@,
                ),
                Err(e) => ({
                    &&& spec_fields(ss@, i as int, old(self)@) is BadF
                    &&& (spec_fields(ss@, i as int, old(self)@) matches FieldsOut::BadF(k)
                        ==> err_matches(e, k))
                }),
            },
        decreases ss@, ss@.len() - i, 1int,
    {
        let ghost st0 = self@;
        if i >= ss.len() {
            let empty: Vec<Value> = Vec::new();
            proof {
                assert(empty.deep_view() =~= Seq::<SpecValue>::empty());
            }
            return Ok(empty);
        }
        match self.deserialize(&ss[i]) {
            Ok(v) => {
                proof {
                    lemma_decode_frame(ss@[i as int], st0);
                }
                self.fields = self.fields - 1;
                match self.decode_fields(ss, i + 1) {
                    Ok(vs) => {
                        let ghost tail = vs.deep_view();
                        let mut vs = vs;
                        vs.insert(0, v);
                        proof {
                            assert(vs.deep_view() =~= seq![v@] + tail);
                        }
                        Ok(vs)
                    },
                    Err(e) => Err(e),
                }
            },
            Err(e) => Err(e),
        }
    }
}

/// Decodes sequence items from the segment pool `sub` until it is empty.
/// An item that consumed no segment costs one anyway, as the grammar
/// demands, so the pool always shrinks.
fn decode_items(sub: &mut Deserializer, inner: &Shape) -> (r: Result<Vec<Value>, Error>)
    requires
        old(sub).inv(),
        old(sub)@.fields == 0,
        nest_bound(*inner) <= usize::MAX,
    ensures
        final (sub).inv(),
        match r {
            Ok(vs) => spec_items(*inner, old(sub)@.toks) == ItemsOut::GoodI(vs.deep_view())
                && final (sub)@.fields == 0,
            Err(e) => ({
                &&& spec_items(*inner, old(sub)@.toks) is BadI
                &&& (spec_items(*inner, old(sub)@.toks) matches ItemsOut::BadI(k)
                    ==> err_matches(e, k))
            }),
        },
    decreases *inner, old(sub)@.toks.len(), 1int,
{
    let ghost st0 = old(sub)@;
    let before = sub.available();
    if before == 0 {
        let empty: Vec<Value> = Vec::new();
        proof {
            assert(empty.deep_view() =~= Seq::<SpecValue>::empty());
        }
        return Ok(empty);
    }
    match sub.deserialize(inner) {
        Ok(v) => {
            proof {
                lemma_decode_frame(*inner, st0);
            }
            let after = sub.available();
            if after == before {
                proof {
                    assert(sub@.toks == st0.toks);
                }
                let dropped = sub.read_part();
                proof {
                    assert(dropped is Ok);
                    assert(sub@.toks == st0.toks.drop_first());
                }
            }
            let ghost rem = sub@.toks;
            proof {
                assert(rem.len() < st0.toks.len());
                assert(sub@.fields == 0);
            }
            match decode_items(sub, inner) {
                Ok(vs) => {
                    let ghost tail = vs.deep_view();
                    let mut vs = vs;
                    vs.insert(0, v);
                    proof {
                        assert(vs.deep_view() =~= seq![v@] + tail);
                    }
                    Ok(vs)
                },
                Err(e) => Err(e),
            }
        },
        Err(e) => Err(e),
    }
}

} // verus!
