//! The general laws of the token codec, stated over the encoder's and
//! decoder's specifications and proved once for all inputs.
use vstd::prelude::*;

use crate::proto::de::{
    lemma_split_all_step, lemma_split_all_whole, spec_decode, spec_items, split_all, split_commas,
    DecOut, DecState, ErrKind, ItemsOut,
};
use crate::proto::ser::{cat_tokens, join_commas, sv_ok, sv_tokens};
use crate::proto::de::{spec_fields, spec_union, FieldsOut};
use crate::{lemma_message_round_trip, plain_token, spec_parse, spec_render, SpecMessage};
use crate::proto::{
    is_cap_shape, is_command_shape, list_text_shape, one_text_shape, opt_text_shape,
    spec_cap_value, spec_command_value, spec_is_cap, spec_is_command, spec_maybe_text, texts_of,
    Cap, Command, Shape, SpecValue,
};

verus! {

/// The text items of `ts`, as sequence item values.
pub open spec fn text_items(ts: Seq<Seq<char>>) -> Seq<SpecValue> {
    ts.map_values(|t: Seq<char>| SpecValue::Text(t))
}

/// Encoding a pair of a text and an optional text puts nothing on the wire
/// for an absent field: the present form is two tokens, the absent form
/// one, with no marker in either.
pub proof fn lemma_optional_field_tokens(a: Seq<char>, b: Seq<char>)
    ensures
        sv_tokens(
            SpecValue::Tuple(
                seq![
                    SpecValue::Text(a),
                    SpecValue::Maybe(Some(Box::new(SpecValue::Text(b)))),
                ],
            ),
        ) == seq![a, b],
        sv_tokens(SpecValue::Tuple(seq![SpecValue::Text(a), SpecValue::Maybe(None)])) == seq![a],
{
    let present = seq![SpecValue::Text(a), SpecValue::Maybe(Some(Box::new(SpecValue::Text(b))))];
    assert(cat_tokens(present, 0) =~= Seq::<Seq<char>>::empty());
    assert(sv_tokens(present[0]) == seq![a]);
    assert(cat_tokens(present, 1) == cat_tokens(present, 0) + sv_tokens(present[0]));
    assert(sv_tokens(SpecValue::Text(b)) == seq![b]);
    assert(sv_tokens(present[1]) == seq![b]);
    assert(cat_tokens(present, 2) == cat_tokens(present, 1) + sv_tokens(present[1]));
    assert(cat_tokens(present, 2) =~= seq![a, b]);
    let absent = seq![SpecValue::Text(a), SpecValue::Maybe(None)];
    assert(cat_tokens(absent, 0) =~= Seq::<Seq<char>>::empty());
    assert(sv_tokens(absent[0]) == seq![a]);
    assert(cat_tokens(absent, 1) == cat_tokens(absent, 0) + sv_tokens(absent[0]));
    assert(sv_tokens(absent[1]) =~= Seq::<Seq<char>>::empty());
    assert(cat_tokens(absent, 2) == cat_tokens(absent, 1) + sv_tokens(absent[1]));
    assert(cat_tokens(absent, 2) =~= seq![a]);
}

/// Decoding symmetry for an optional field: against the shape of a text
/// followed by an optional text, two tokens decode to a present field and
/// one token to an absent one, by token counting alone.
pub proof fn lemma_optional_field_round_trip(s: Shape, a: Seq<char>, b: Seq<char>)
    requires
        s matches Shape::Tuple(fs) && fs@.len() == 2 && fs@[0] == Shape::Text && fs@[1]
            == opt_text_shape(),
    ensures
        spec_decode(s, DecState { toks: seq![a, b], fields: 0 }) == DecOut::Good(
            SpecValue::Tuple(
                seq![
                    SpecValue::Text(a),
                    SpecValue::Maybe(Some(Box::new(SpecValue::Text(b)))),
                ],
            ),
            DecState { toks: Seq::empty(), fields: 0 },
        ),
        spec_decode(s, DecState { toks: seq![a], fields: 0 }) == DecOut::Good(
            SpecValue::Tuple(seq![SpecValue::Text(a), SpecValue::Maybe(None)]),
            DecState { toks: Seq::empty(), fields: 0 },
        ),
{
    let fs = s.arrow_Tuple_0()@;
    // Present: two tokens against two fields, the optional one included.
    let e2 = DecState { toks: seq![a, b], fields: 2nat };
    assert(seq![a, b].drop_first() =~= seq![b]);
    assert(spec_decode(Shape::Text, e2) == DecOut::Good(
        SpecValue::Text(a),
        DecState { toks: seq![b], fields: 2nat },
    ));
    let m2 = DecState { toks: seq![b], fields: 1nat };
    assert(seq![b].drop_first() =~= Seq::<Seq<char>>::empty());
    assert(spec_decode(Shape::Text, m2) == DecOut::Good(
        SpecValue::Text(b),
        DecState { toks: Seq::empty(), fields: 1nat },
    ));
    assert(spec_decode(opt_text_shape(), m2) == DecOut::Good(
        SpecValue::Maybe(Some(Box::new(SpecValue::Text(b)))),
        DecState { toks: Seq::empty(), fields: 1nat },
    ));
    let z0 = DecState { toks: Seq::<Seq<char>>::empty(), fields: 0nat };
    assert(crate::proto::de::spec_fields(fs, 2, z0) == crate::proto::de::FieldsOut::GoodF(
        Seq::empty(),
        z0,
    ));
    assert(crate::proto::de::spec_fields(fs, 1, m2) == crate::proto::de::FieldsOut::GoodF(
        seq![SpecValue::Maybe(Some(Box::new(SpecValue::Text(b))))],
        z0,
    ));
    assert(crate::proto::de::spec_fields(fs, 0, e2) == crate::proto::de::FieldsOut::GoodF(
        seq![SpecValue::Text(a), SpecValue::Maybe(Some(Box::new(SpecValue::Text(b))))],
        z0,
    )) by {
        assert(seq![SpecValue::Text(a)] + seq![
            SpecValue::Maybe(Some(Box::new(SpecValue::Text(b)))),
        ] =~= seq![SpecValue::Text(a), SpecValue::Maybe(Some(Box::new(SpecValue::Text(b))))]);
    }
    assert(spec_decode(s, DecState { toks: seq![a, b], fields: 0 }) == DecOut::Good(
        SpecValue::Tuple(
            seq![SpecValue::Text(a), SpecValue::Maybe(Some(Box::new(SpecValue::Text(b))))],
        ),
        z0,
    ));

    // Absent: one token against two fields; the optional field sees fewer
    // tokens than mandatory fields and consumes nothing.
    let e1 = DecState { toks: seq![a], fields: 2nat };
    assert(seq![a].drop_first() =~= Seq::<Seq<char>>::empty());
    assert(spec_decode(Shape::Text, e1) == DecOut::Good(
        SpecValue::Text(a),
        DecState { toks: Seq::empty(), fields: 2nat },
    ));
    let m1 = DecState { toks: Seq::<Seq<char>>::empty(), fields: 1nat };
    assert(spec_decode(opt_text_shape(), m1) == DecOut::Good(SpecValue::Maybe(None), m1));
    assert(crate::proto::de::spec_fields(fs, 1, m1) == crate::proto::de::FieldsOut::GoodF(
        seq![SpecValue::Maybe(None)],
        z0,
    ));
    assert(crate::proto::de::spec_fields(fs, 0, e1) == crate::proto::de::FieldsOut::GoodF(
        seq![SpecValue::Text(a), SpecValue::Maybe(None)],
        z0,
    )) by {
        assert(seq![SpecValue::Text(a)] + seq![SpecValue::Maybe(None)] =~= seq![
            SpecValue::Text(a),
            SpecValue::Maybe(None),
        ]);
    }
    assert(spec_decode(s, DecState { toks: seq![a], fields: 0 }) == DecOut::Good(
        SpecValue::Tuple(seq![SpecValue::Text(a), SpecValue::Maybe(None)]),
        z0,
    ));
}

/// The tokens of text items are the texts themselves, in order.
pub proof fn lemma_cat_texts(ts: Seq<Seq<char>>, n: int)
    requires
        0 <= n <= ts.len(),
    ensures
        cat_tokens(text_items(ts), n) == ts.take(n),
    decreases n,
{
    if n == 0 {
        assert(cat_tokens(text_items(ts), 0) =~= ts.take(0));
    } else {
        lemma_cat_texts(ts, n - 1);
        assert(text_items(ts)[n - 1] == SpecValue::Text(ts[n - 1]));
        assert(sv_tokens(text_items(ts)[n - 1]) == seq![ts[n - 1]]);
        assert(cat_tokens(text_items(ts), n) == cat_tokens(text_items(ts), n - 1) + sv_tokens(
            text_items(ts)[n - 1],
        ));
        assert(ts.take(n - 1) + seq![ts[n - 1]] =~= ts.take(n));
    }
}

/// Splitting a comma-joined list recovers the list, provided no item holds
/// a comma and the final item is not empty.
pub proof fn lemma_split_join(ts: Seq<Seq<char>>)
    requires
        forall|i: int| 0 <= i < ts.len() ==> !(#[trigger] ts[i]).contains(','),
        ts.len() == 0 || ts.last().len() > 0,
    ensures
        split_commas(join_commas(ts)) == ts,
{
    if ts.len() == 0 {
        assert(join_commas(ts) =~= Seq::<char>::empty());
        assert(split_all(Seq::<char>::empty()) == seq![Seq::<char>::empty()]);
        assert(split_commas(join_commas(ts)) =~= ts);
    } else {
        lemma_split_all_join(ts);
        let a = split_all(join_commas(ts));
        assert(a == ts);
        assert(a.last().len() > 0);
    }
}

proof fn lemma_split_all_join(ts: Seq<Seq<char>>)
    requires
        ts.len() >= 1,
        forall|i: int| 0 <= i < ts.len() ==> !(#[trigger] ts[i]).contains(','),
    ensures
        split_all(join_commas(ts)) == ts,
    decreases ts.len(),
{
    if ts.len() == 1 {
        assert(join_commas(ts) == ts[0]);
        lemma_split_all_whole(ts[0]);
        assert(seq![ts[0]] =~= ts);
    } else {
        let tail = ts.drop_first();
        assert(forall|i: int|
            0 <= i < tail.len() ==> !(#[trigger] tail[i]).contains(',')) by {
            assert(forall|i: int| 0 <= i < tail.len() ==> tail[i] == ts[i + 1]);
        }
        lemma_split_all_join(tail);
        assert(join_commas(ts) == ts[0] + seq![','] + join_commas(tail));
        lemma_split_all_step(ts[0], join_commas(tail));
        assert(seq![ts[0]] + tail =~= ts);
    }
}

/// Decoding text items from a segment pool yields one text per segment.
pub proof fn lemma_items_text(pool: Seq<Seq<char>>)
    ensures
        spec_items(Shape::Text, pool) == ItemsOut::GoodI(text_items(pool)),
    decreases pool.len(),
{
    if pool.len() == 0 {
        assert(text_items(pool) =~= Seq::<SpecValue>::empty());
    } else {
        let st = DecState { toks: pool, fields: 0nat };
        assert(spec_decode(Shape::Text, st) == DecOut::Good(
            SpecValue::Text(pool[0]),
            DecState { toks: pool.drop_first(), fields: 0nat },
        ));
        lemma_items_text(pool.drop_first());
        assert(seq![SpecValue::Text(pool[0])] + text_items(pool.drop_first()) =~= text_items(
            pool,
        ));
    }
}

/// Sequence symmetry: a list of texts occupies exactly one wire token, the
/// comma-join of its items, and decoding that token against the
/// sequence-of-text shape yields the items back. An empty token decodes to
/// the empty sequence.
pub proof fn lemma_list_text_round_trip(s: Shape, ts: Seq<Seq<char>>)
    requires
        s == list_text_shape(),
        forall|i: int| 0 <= i < ts.len() ==> !(#[trigger] ts[i]).contains(','),
        ts.len() == 0 || ts.last().len() > 0,
    ensures
        sv_tokens(SpecValue::List(text_items(ts))) == seq![join_commas(ts)],
        spec_decode(s, DecState { toks: seq![join_commas(ts)], fields: 0 }) == DecOut::Good(
            SpecValue::List(text_items(ts)),
            DecState { toks: Seq::empty(), fields: 0 },
        ),
{
    lemma_cat_texts(ts, ts.len() as int);
    assert(ts.take(ts.len() as int) =~= ts);
    assert(text_items(ts).len() == ts.len());
    assert(sv_tokens(SpecValue::List(text_items(ts))) == seq![
        join_commas(cat_tokens(text_items(ts), ts.len() as int)),
    ]);

    let st = DecState { toks: seq![join_commas(ts)], fields: 0nat };
    assert(st.toks[0] == join_commas(ts));
    assert(st.toks.drop_first() =~= Seq::<Seq<char>>::empty());
    lemma_split_join(ts);
    lemma_items_text(ts);
    assert(spec_decode(s, st) == DecOut::Good(
        SpecValue::List(text_items(ts)),
        DecState { toks: Seq::empty(), fields: 0 },
    ));
}

/// Map rejection, encode side: no map-like value is representable.
pub proof fn lemma_map_encode_rejected(v: SpecValue)
    requires
        v is Dict,
    ensures
        !sv_ok(v),
{
}

/// Map rejection, decode side: map-like and fully-dynamic shapes always
/// fail with the unsupported-type error, whatever the cursor holds.
pub proof fn lemma_map_decode_rejected(s: Shape, st: DecState)
    requires
        s is Dict || s is Dynamic,
    ensures
        spec_decode(s, st) == DecOut::Bad(ErrKind::Unsupported),
{
}

/// Tagged-union symmetry, encode side: a capability request encodes as the
/// command tag, the variant tag, and the payload text, one token each.
pub proof fn lemma_cap_req_tokens(caps: Seq<char>)
    ensures
        sv_tokens(
            SpecValue::Variant(
                "CAP"@,
                Box::new(
                    SpecValue::Variant(
                        "REQ"@,
                        Box::new(SpecValue::Tuple(seq![SpecValue::Text(caps)])),
                    ),
                ),
            ),
        ) == seq!["CAP"@, "REQ"@, caps],
{
    let payload = SpecValue::Tuple(seq![SpecValue::Text(caps)]);
    assert(cat_tokens(seq![SpecValue::Text(caps)], 0) =~= Seq::<Seq<char>>::empty());
    assert(sv_tokens(SpecValue::Text(caps)) == seq![caps]);
    assert(cat_tokens(seq![SpecValue::Text(caps)], 1) =~= seq![caps]);
    assert(sv_tokens(payload) == seq![caps]);
    let req = SpecValue::Variant("REQ"@, Box::new(payload));
    assert(sv_tokens(req) == seq!["REQ"@] + seq![caps]);
    let cap = SpecValue::Variant("CAP"@, Box::new(req));
    assert(sv_tokens(cap) == seq!["CAP"@] + (seq!["REQ"@] + seq![caps]));
    assert(seq!["CAP"@] + (seq!["REQ"@] + seq![caps]) =~= seq!["CAP"@, "REQ"@, caps]);
}

/// Tagged-union symmetry, decode side: the variant tag token selects the
/// variant, and the payload decodes after it.
pub proof fn lemma_cap_req_decode(s: Shape, caps: Seq<char>)
    requires
        is_cap_shape(s),
    ensures
        spec_decode(s, DecState { toks: seq!["REQ"@, caps], fields: 0 }) == DecOut::Good(
            SpecValue::Variant(
                "REQ"@,
                Box::new(SpecValue::Tuple(seq![SpecValue::Text(caps)])),
            ),
            DecState { toks: Seq::empty(), fields: 0 },
        ),
{
    let vs = s.arrow_Union_0()@;
    let st = DecState { toks: seq!["REQ"@, caps], fields: 0nat };
    assert(st.toks[0] == "REQ"@);
    assert(st.toks.drop_first() =~= seq![caps]);
    let st2 = DecState { toks: seq![caps], fields: 0nat };
    let payload_shape = vs[0].1;
    let fs = payload_shape.arrow_Tuple_0()@;
    let e1 = DecState { toks: seq![caps], fields: 1nat };
    assert(seq![caps].drop_first() =~= Seq::<Seq<char>>::empty());
    assert(spec_decode(Shape::Text, e1) == DecOut::Good(
        SpecValue::Text(caps),
        DecState { toks: Seq::empty(), fields: 1nat },
    ));
    let z0 = DecState { toks: Seq::<Seq<char>>::empty(), fields: 0nat };
    assert(crate::proto::de::spec_fields(fs, 1, z0) == crate::proto::de::FieldsOut::GoodF(
        Seq::empty(),
        z0,
    ));
    assert(fs[0] == Shape::Text);
    assert(crate::proto::de::spec_fields(fs, 0, e1) == crate::proto::de::FieldsOut::GoodF(
        seq![SpecValue::Text(caps)],
        z0,
    )) by {
        assert(seq![SpecValue::Text(caps)] + Seq::<SpecValue>::empty() =~= seq![
            SpecValue::Text(caps),
        ]);
    }
    assert(spec_decode(payload_shape, st2) == DecOut::Good(
        SpecValue::Tuple(seq![SpecValue::Text(caps)]),
        z0,
    ));
    assert(crate::proto::de::spec_union(vs, "REQ"@, 0, st2) == DecOut::Good(
        SpecValue::Variant("REQ"@, Box::new(SpecValue::Tuple(seq![SpecValue::Text(caps)]))),
        z0,
    ));
    assert(spec_decode(s, st) == crate::proto::de::spec_union(vs, "REQ"@, 0, st2));
}

/// Every command's value representation is one the reader accepts: with
/// the exact contracts of `Command::to_value` and `Command::from_value`,
/// reading an encoded command back always succeeds and returns a command
/// with the same representation.
pub proof fn lemma_command_value_round_trip(c: Command)
    ensures
        spec_is_command(spec_command_value(c)),
{
    match c {
        Command::Cap(inner) => {
            match inner {
                Cap::Req { caps } => {
                    assert(spec_is_cap(spec_cap_value(inner)));
                },
                Cap::End => {
                    assert(spec_is_cap(spec_cap_value(inner)));
                },
            }
        },
        Command::Authenticate { mechanism } => {},
        Command::Pong { server, token } => {},
        Command::Nick { nickname } => {},
        Command::User { username, realname } => {},
        Command::Kick { channel, users, reason } => {
            let v = spec_command_value(c);
            assert(crate::proto::is_text_list(SpecValue::List(crate::proto::texts_of(users@))));
        },
        Command::Topic { channel, topic } => {},
    }
}

/// The commands whose encoding survives the wire unchanged: sequence
/// items must not hold commas, and a final empty item would be dropped by
/// the comma join.
pub open spec fn command_wire_safe(c: Command) -> bool {
    match c {
        Command::Kick { channel, users, reason } => {
            &&& forall|i: int| 0 <= i < users@.len() ==> !(#[trigger] users@[i]@).contains(',')
            &&& users@.len() == 0 || users@.last()@.len() > 0
        },
        _ => true,
    }
}

proof fn lemma_payload_one_text(sh: Shape, a: Seq<char>)
    requires
        one_text_shape(sh),
    ensures
        sv_tokens(SpecValue::Tuple(seq![SpecValue::Text(a)])) == seq![a],
        spec_decode(sh, DecState { toks: seq![a], fields: 0 }) == DecOut::Good(
            SpecValue::Tuple(seq![SpecValue::Text(a)]),
            DecState { toks: Seq::empty(), fields: 0 },
        ),
{
    let vs = seq![SpecValue::Text(a)];
    assert(cat_tokens(vs, 0) =~= Seq::<Seq<char>>::empty());
    assert(sv_tokens(vs[0]) == seq![a]);
    assert(cat_tokens(vs, 1) == cat_tokens(vs, 0) + sv_tokens(vs[0]));
    assert(cat_tokens(vs, 1) =~= seq![a]);

    let fs = sh.arrow_Tuple_0()@;
    let e1 = DecState { toks: seq![a], fields: 1nat };
    let z0 = DecState { toks: Seq::<Seq<char>>::empty(), fields: 0nat };
    assert(seq![a].drop_first() =~= Seq::<Seq<char>>::empty());
    assert(spec_decode(Shape::Text, e1) == DecOut::Good(
        SpecValue::Text(a),
        DecState { toks: Seq::empty(), fields: 1nat },
    ));
    assert(spec_fields(fs, 1, z0) == FieldsOut::GoodF(Seq::empty(), z0));
    assert(spec_fields(fs, 0, e1) == FieldsOut::GoodF(seq![SpecValue::Text(a)], z0)) by {
        assert(seq![SpecValue::Text(a)] + Seq::<SpecValue>::empty() =~= seq![
            SpecValue::Text(a),
        ]);
    }
}

proof fn lemma_payload_two_texts(sh: Shape, a: Seq<char>, b: Seq<char>)
    requires
        sh matches Shape::Tuple(fs) && fs@.len() == 2 && fs@[0] == Shape::Text && fs@[1]
            == Shape::Text,
    ensures
        sv_tokens(SpecValue::Tuple(seq![SpecValue::Text(a), SpecValue::Text(b)])) == seq![a, b],
        spec_decode(sh, DecState { toks: seq![a, b], fields: 0 }) == DecOut::Good(
            SpecValue::Tuple(seq![SpecValue::Text(a), SpecValue::Text(b)]),
            DecState { toks: Seq::empty(), fields: 0 },
        ),
{
    let vs = seq![SpecValue::Text(a), SpecValue::Text(b)];
    assert(cat_tokens(vs, 0) =~= Seq::<Seq<char>>::empty());
    assert(sv_tokens(vs[0]) == seq![a]);
    assert(cat_tokens(vs, 1) == cat_tokens(vs, 0) + sv_tokens(vs[0]));
    assert(sv_tokens(vs[1]) == seq![b]);
    assert(cat_tokens(vs, 2) == cat_tokens(vs, 1) + sv_tokens(vs[1]));
    assert(cat_tokens(vs, 2) =~= seq![a, b]);

    let fs = sh.arrow_Tuple_0()@;
    let e2 = DecState { toks: seq![a, b], fields: 2nat };
    let z0 = DecState { toks: Seq::<Seq<char>>::empty(), fields: 0nat };
    assert(seq![a, b].drop_first() =~= seq![b]);
    assert(spec_decode(Shape::Text, e2) == DecOut::Good(
        SpecValue::Text(a),
        DecState { toks: seq![b], fields: 2nat },
    ));
    let m = DecState { toks: seq![b], fields: 1nat };
    assert(seq![b].drop_first() =~= Seq::<Seq<char>>::empty());
    assert(spec_decode(Shape::Text, m) == DecOut::Good(
        SpecValue::Text(b),
        DecState { toks: Seq::empty(), fields: 1nat },
    ));
    assert(spec_fields(fs, 2, z0) == FieldsOut::GoodF(Seq::empty(), z0));
    assert(spec_fields(fs, 1, m) == FieldsOut::GoodF(seq![SpecValue::Text(b)], z0)) by {
        assert(seq![SpecValue::Text(b)] + Seq::<SpecValue>::empty() =~= seq![
            SpecValue::Text(b),
        ]);
    }
    assert(spec_fields(fs, 0, e2) == FieldsOut::GoodF(vs, z0)) by {
        assert(seq![SpecValue::Text(a)] + seq![SpecValue::Text(b)] =~= vs);
    }
}

proof fn lemma_payload_opt_then_text(sh: Shape, server: Option<Seq<char>>, t: Seq<char>)
    requires
        sh matches Shape::Tuple(fs) && fs@.len() == 2 && fs@[0] == opt_text_shape() && fs@[1]
            == Shape::Text,
    ensures
        ({
            let first = match server {
                Some(sv) => SpecValue::Maybe(Some(Box::new(SpecValue::Text(sv)))),
                None => SpecValue::Maybe(None),
            };
            let toks = match server {
                Some(sv) => seq![sv, t],
                None => seq![t],
            };
            &&& sv_tokens(SpecValue::Tuple(seq![first, SpecValue::Text(t)])) == toks
            &&& spec_decode(sh, DecState { toks, fields: 0 }) == DecOut::Good(
                SpecValue::Tuple(seq![first, SpecValue::Text(t)]),
                DecState { toks: Seq::empty(), fields: 0 },
            )
        }),
{
    let fs = sh.arrow_Tuple_0()@;
    let z0 = DecState { toks: Seq::<Seq<char>>::empty(), fields: 0nat };
    match server {
        Some(sv) => {
            let first = SpecValue::Maybe(Some(Box::new(SpecValue::Text(sv))));
            let vs = seq![first, SpecValue::Text(t)];
            assert(cat_tokens(vs, 0) =~= Seq::<Seq<char>>::empty());
            assert(sv_tokens(SpecValue::Text(sv)) == seq![sv]);
            assert(sv_tokens(vs[0]) == seq![sv]);
            assert(cat_tokens(vs, 1) == cat_tokens(vs, 0) + sv_tokens(vs[0]));
            assert(sv_tokens(vs[1]) == seq![t]);
            assert(cat_tokens(vs, 2) == cat_tokens(vs, 1) + sv_tokens(vs[1]));
            assert(cat_tokens(vs, 2) =~= seq![sv, t]);

            let e2 = DecState { toks: seq![sv, t], fields: 2nat };
            assert(seq![sv, t].drop_first() =~= seq![t]);
            assert(spec_decode(Shape::Text, e2) == DecOut::Good(
                SpecValue::Text(sv),
                DecState { toks: seq![t], fields: 2nat },
            ));
            assert(spec_decode(opt_text_shape(), e2) == DecOut::Good(
                first,
                DecState { toks: seq![t], fields: 2nat },
            ));
            let m = DecState { toks: seq![t], fields: 1nat };
            assert(seq![t].drop_first() =~= Seq::<Seq<char>>::empty());
            assert(spec_decode(Shape::Text, m) == DecOut::Good(
                SpecValue::Text(t),
                DecState { toks: Seq::empty(), fields: 1nat },
            ));
            assert(spec_fields(fs, 2, z0) == FieldsOut::GoodF(Seq::empty(), z0));
            assert(spec_fields(fs, 1, m) == FieldsOut::GoodF(seq![SpecValue::Text(t)], z0))
                by {
                assert(seq![SpecValue::Text(t)] + Seq::<SpecValue>::empty() =~= seq![
                    SpecValue::Text(t),
                ]);
            }
            assert(spec_fields(fs, 0, e2) == FieldsOut::GoodF(vs, z0)) by {
                assert(seq![first] + seq![SpecValue::Text(t)] =~= vs);
            }
        },
        None => {
            let first = SpecValue::Maybe(None);
            let vs = seq![first, SpecValue::Text(t)];
            assert(cat_tokens(vs, 0) =~= Seq::<Seq<char>>::empty());
            assert(sv_tokens(vs[0]) =~= Seq::<Seq<char>>::empty());
            assert(cat_tokens(vs, 1) == cat_tokens(vs, 0) + sv_tokens(vs[0]));
            assert(sv_tokens(vs[1]) == seq![t]);
            assert(cat_tokens(vs, 2) == cat_tokens(vs, 1) + sv_tokens(vs[1]));
            assert(cat_tokens(vs, 2) =~= seq![t]);

            let e1 = DecState { toks: seq![t], fields: 2nat };
            assert(spec_decode(opt_text_shape(), e1) == DecOut::Good(first, e1));
            let m = DecState { toks: seq![t], fields: 1nat };
            assert(seq![t].drop_first() =~= Seq::<Seq<char>>::empty());
            assert(spec_decode(Shape::Text, m) == DecOut::Good(
                SpecValue::Text(t),
                DecState { toks: Seq::empty(), fields: 1nat },
            ));
            assert(spec_fields(fs, 2, z0) == FieldsOut::GoodF(Seq::empty(), z0));
            assert(spec_fields(fs, 1, m) == FieldsOut::GoodF(seq![SpecValue::Text(t)], z0))
                by {
                assert(seq![SpecValue::Text(t)] + Seq::<SpecValue>::empty() =~= seq![
                    SpecValue::Text(t),
                ]);
            }
            assert(spec_fields(fs, 0, e1) == FieldsOut::GoodF(vs, z0)) by {
                assert(seq![first] + seq![SpecValue::Text(t)] =~= vs);
            }
        },
    }
}

proof fn lemma_payload_kick(
    sh: Shape,
    ch: Seq<char>,
    ts: Seq<Seq<char>>,
    reason: Option<Seq<char>>,
)
    requires
        sh matches Shape::Tuple(fs) && fs@.len() == 3 && fs@[0] == Shape::Text && fs@[1]
            == list_text_shape() && fs@[2] == opt_text_shape(),
        forall|i: int| 0 <= i < ts.len() ==> !(#[trigger] ts[i]).contains(','),
        ts.len() == 0 || ts.last().len() > 0,
    ensures
        ({
            let third = match reason {
                Some(r) => SpecValue::Maybe(Some(Box::new(SpecValue::Text(r)))),
                None => SpecValue::Maybe(None),
            };
            let vs = seq![SpecValue::Text(ch), SpecValue::List(text_items(ts)), third];
            let toks = match reason {
                Some(r) => seq![ch, join_commas(ts), r],
                None => seq![ch, join_commas(ts)],
            };
            &&& sv_tokens(SpecValue::Tuple(vs)) == toks
            &&& spec_decode(sh, DecState { toks, fields: 0 }) == DecOut::Good(
                SpecValue::Tuple(vs),
                DecState { toks: Seq::empty(), fields: 0 },
            )
        }),
{
    let fs = sh.arrow_Tuple_0()@;
    let z0 = DecState { toks: Seq::<Seq<char>>::empty(), fields: 0nat };
    let third = match reason {
        Some(r) => SpecValue::Maybe(Some(Box::new(SpecValue::Text(r)))),
        None => SpecValue::Maybe(None),
    };
    let list_sv = SpecValue::List(text_items(ts));
    let vs = seq![SpecValue::Text(ch), list_sv, third];
    let jt = join_commas(ts);

    // Token computation.
    lemma_cat_texts(ts, ts.len() as int);
    assert(ts.take(ts.len() as int) =~= ts);
    assert(text_items(ts).len() == ts.len());
    assert(sv_tokens(list_sv) == seq![jt]);
    assert(cat_tokens(vs, 0) =~= Seq::<Seq<char>>::empty());
    assert(sv_tokens(vs[0]) == seq![ch]);
    assert(cat_tokens(vs, 1) == cat_tokens(vs, 0) + sv_tokens(vs[0]));
    assert(cat_tokens(vs, 2) == cat_tokens(vs, 1) + sv_tokens(vs[1]));
    assert(cat_tokens(vs, 3) == cat_tokens(vs, 2) + sv_tokens(vs[2]));
    match reason {
        Some(r) => {
            assert(sv_tokens(SpecValue::Text(r)) == seq![r]);
            assert(sv_tokens(vs[2]) == seq![r]);
            assert(cat_tokens(vs, 3) =~= seq![ch, jt, r]);
        },
        None => {
            assert(sv_tokens(vs[2]) =~= Seq::<Seq<char>>::empty());
            assert(cat_tokens(vs, 3) =~= seq![ch, jt]);
        },
    }

    // Decode: the channel text, then the sequence token, then the optional
    // reason by counting.
    lemma_split_join(ts);
    lemma_items_text(ts);
    match reason {
        Some(r) => {
            let e = DecState { toks: seq![ch, jt, r], fields: 3nat };
            assert(seq![ch, jt, r].drop_first() =~= seq![jt, r]);
            assert(spec_decode(Shape::Text, e) == DecOut::Good(
                SpecValue::Text(ch),
                DecState { toks: seq![jt, r], fields: 3nat },
            ));
            let m2 = DecState { toks: seq![jt, r], fields: 2nat };
            assert(seq![jt, r].drop_first() =~= seq![r]);
            assert(spec_decode(list_text_shape(), m2) == DecOut::Good(
                list_sv,
                DecState { toks: seq![r], fields: 2nat },
            ));
            let m1 = DecState { toks: seq![r], fields: 1nat };
            assert(seq![r].drop_first() =~= Seq::<Seq<char>>::empty());
            assert(spec_decode(Shape::Text, m1) == DecOut::Good(
                SpecValue::Text(r),
                DecState { toks: Seq::empty(), fields: 1nat },
            ));
            assert(spec_decode(opt_text_shape(), m1) == DecOut::Good(
                third,
                DecState { toks: Seq::empty(), fields: 1nat },
            ));
            assert(spec_fields(fs, 3, z0) == FieldsOut::GoodF(Seq::empty(), z0));
            assert(spec_fields(fs, 2, m1) == FieldsOut::GoodF(seq![third], z0)) by {
                assert(seq![third] + Seq::<SpecValue>::empty() =~= seq![third]);
            }
            assert(spec_fields(fs, 1, m2) == FieldsOut::GoodF(seq![list_sv, third], z0)) by {
                assert(seq![list_sv] + seq![third] =~= seq![list_sv, third]);
            }
            assert(spec_fields(fs, 0, e) == FieldsOut::GoodF(vs, z0)) by {
                assert(seq![SpecValue::Text(ch)] + seq![list_sv, third] =~= vs);
            }
        },
        None => {
            let e = DecState { toks: seq![ch, jt], fields: 3nat };
            assert(seq![ch, jt].drop_first() =~= seq![jt]);
            assert(spec_decode(Shape::Text, e) == DecOut::Good(
                SpecValue::Text(ch),
                DecState { toks: seq![jt], fields: 3nat },
            ));
            let m2 = DecState { toks: seq![jt], fields: 2nat };
            assert(seq![jt].drop_first() =~= Seq::<Seq<char>>::empty());
            assert(spec_decode(list_text_shape(), m2) == DecOut::Good(
                list_sv,
                DecState { toks: Seq::empty(), fields: 2nat },
            ));
            let m1 = DecState { toks: Seq::<Seq<char>>::empty(), fields: 1nat };
            assert(spec_decode(opt_text_shape(), m1) == DecOut::Good(third, m1));
            assert(spec_fields(fs, 3, z0) == FieldsOut::GoodF(Seq::empty(), z0));
            assert(spec_fields(fs, 2, m1) == FieldsOut::GoodF(seq![third], z0)) by {
                assert(seq![third] + Seq::<SpecValue>::empty() =~= seq![third]);
            }
            assert(spec_fields(fs, 1, m2) == FieldsOut::GoodF(seq![list_sv, third], z0)) by {
                assert(seq![list_sv] + seq![third] =~= seq![list_sv, third]);
            }
            assert(spec_fields(fs, 0, e) == FieldsOut::GoodF(vs, z0)) by {
                assert(seq![SpecValue::Text(ch)] + seq![list_sv, third] =~= vs);
            }
        },
    }
}

proof fn lemma_cap_payload(sh: Shape, inner: Cap)
    requires
        is_cap_shape(sh),
    ensures
        spec_decode(sh, DecState { toks: sv_tokens(spec_cap_value(inner)), fields: 0 })
            == DecOut::Good(spec_cap_value(inner), DecState { toks: Seq::empty(), fields: 0 }),
{
    let vs = sh.arrow_Union_0()@;
    let z0 = DecState { toks: Seq::<Seq<char>>::empty(), fields: 0nat };
    reveal_strlit("REQ");
    reveal_strlit("END");
    assert("REQ"@[0] != "END"@[0]);
    assert("REQ"@ != "END"@);
    match inner {
        Cap::Req { caps } => {
            let payload = SpecValue::Tuple(seq![SpecValue::Text(caps@)]);
            lemma_payload_one_text(vs[0].1, caps@);
            assert(sv_tokens(spec_cap_value(inner)) == seq!["REQ"@] + seq![caps@]);
            assert(seq!["REQ"@] + seq![caps@] =~= seq!["REQ"@, caps@]);
            let st = DecState { toks: seq!["REQ"@, caps@], fields: 0nat };
            assert(st.toks.drop_first() =~= seq![caps@]);
            let st2 = DecState { toks: seq![caps@], fields: 0nat };
            assert(spec_union(vs, "REQ"@, 0, st2) == DecOut::Good(
                SpecValue::Variant("REQ"@, Box::new(payload)),
                z0,
            ));
            assert(spec_decode(sh, st) == spec_union(vs, "REQ"@, 0, st2));
        },
        Cap::End => {
            assert(sv_tokens(SpecValue::Unit) =~= Seq::<Seq<char>>::empty());
            assert(sv_tokens(spec_cap_value(inner)) =~= seq!["END"@]);
            let st = DecState { toks: seq!["END"@], fields: 0nat };
            assert(st.toks.drop_first() =~= Seq::<Seq<char>>::empty());
            let st2 = z0;
            assert(vs[0].0@ != "END"@);
            assert(spec_union(vs, "END"@, 0, st2) == spec_union(vs, "END"@, 1, st2));
            assert(spec_decode(Shape::Unit, st2) == DecOut::Good(SpecValue::Unit, st2));
            assert(spec_union(vs, "END"@, 1, st2) == DecOut::Good(
                SpecValue::Variant("END"@, Box::new(SpecValue::Unit)),
                z0,
            ));
            assert(spec_decode(sh, st) == spec_union(vs, "END"@, 0, st2));
        },
    }
}

proof fn lemma_union_skip(vs: Seq<(String, Shape)>, tag: Seq<char>, i: int, st: DecState)
    requires
        0 <= i < vs.len(),
        vs[i].0@ != tag,
    ensures
        spec_union(vs, tag, i, st) == spec_union(vs, tag, i + 1, st),
{
}

/// The round-trip theorem of the protocol: every wire-safe command,
/// encoded to its tokens and decoded against the command shape, comes
/// back as exactly the value it was encoded from, consuming every token.
pub proof fn lemma_command_wire_round_trip(s: Shape, c: Command)
    requires
        is_command_shape(s),
        command_wire_safe(c),
    ensures
        spec_decode(s, DecState { toks: sv_tokens(spec_command_value(c)), fields: 0 })
            == DecOut::Good(
            spec_command_value(c),
            DecState { toks: Seq::empty(), fields: 0 },
        ),
{
    let vs = s.arrow_Union_0()@;
    let z0 = DecState { toks: Seq::<Seq<char>>::empty(), fields: 0nat };
    reveal_strlit("CAP");
    reveal_strlit("AUTHENTICATE");
    reveal_strlit("PONG");
    reveal_strlit("NICK");
    reveal_strlit("USER");
    reveal_strlit("KICK");
    reveal_strlit("TOPIC");
    assert("CAP"@.len() == 3 && "AUTHENTICATE"@.len() == 12 && "PONG"@.len() == 4 && "NICK"@.len()
        == 4 && "USER"@.len() == 4 && "KICK"@.len() == 4 && "TOPIC"@.len() == 5);
    assert("PONG"@[0] == 'P' && "NICK"@[0] == 'N' && "USER"@[0] == 'U' && "KICK"@[0] == 'K');
    match c {
        Command::Cap(inner) => {
            let cv = spec_command_value(c);
            let ptoks = sv_tokens(spec_cap_value(inner));
            assert(sv_tokens(cv) == seq!["CAP"@] + ptoks);
            let toks = seq!["CAP"@] + ptoks;
            assert(toks[0] == "CAP"@);
            assert(toks.drop_first() =~= ptoks);
            let st2 = DecState { toks: ptoks, fields: 0nat };
            lemma_cap_payload(vs[0].1, inner);
            assert(spec_union(vs, "CAP"@, 0, st2) == DecOut::Good(
                SpecValue::Variant("CAP"@, Box::new(spec_cap_value(inner))),
                z0,
            ));
            assert(spec_decode(s, DecState { toks, fields: 0 }) == spec_union(
                vs,
                "CAP"@,
                0,
                st2,
            ));
        },
        Command::Authenticate { mechanism } => {
            let payload = SpecValue::Tuple(seq![SpecValue::Text(mechanism@)]);
            lemma_payload_one_text(vs[1].1, mechanism@);
            let ptoks = seq![mechanism@];
            assert(sv_tokens(spec_command_value(c)) == seq!["AUTHENTICATE"@] + ptoks);
            let toks = seq!["AUTHENTICATE"@] + ptoks;
            assert(toks[0] == "AUTHENTICATE"@);
            assert(toks.drop_first() =~= ptoks);
            let st2 = DecState { toks: ptoks, fields: 0nat };
            lemma_union_skip(vs, "AUTHENTICATE"@, 0, st2);
            assert(spec_union(vs, "AUTHENTICATE"@, 1, st2) == DecOut::Good(
                SpecValue::Variant("AUTHENTICATE"@, Box::new(payload)),
                z0,
            ));
            assert(spec_decode(s, DecState { toks, fields: 0 }) == spec_union(
                vs,
                "AUTHENTICATE"@,
                0,
                st2,
            ));
        },
        Command::Pong { server, token } => {
            let first = spec_maybe_text(server);
            let payload = SpecValue::Tuple(seq![first, SpecValue::Text(token@)]);
            let sv = match server {
                Some(sv) => Some(sv@),
                None => None,
            };
            lemma_payload_opt_then_text(vs[2].1, sv, token@);
            let ptoks = match sv {
                Some(x) => seq![x, token@],
                None => seq![token@],
            };
            assert(match sv {
                Some(x) => first == SpecValue::Maybe(Some(Box::new(SpecValue::Text(x)))),
                None => first == SpecValue::Maybe(None),
            });
            assert(sv_tokens(payload) == ptoks);
            assert(sv_tokens(spec_command_value(c)) == seq!["PONG"@] + ptoks);
            let toks = seq!["PONG"@] + ptoks;
            assert(toks[0] == "PONG"@);
            assert(toks.drop_first() =~= ptoks);
            let st2 = DecState { toks: ptoks, fields: 0nat };
            lemma_union_skip(vs, "PONG"@, 0, st2);
            lemma_union_skip(vs, "PONG"@, 1, st2);
            assert(spec_union(vs, "PONG"@, 2, st2) == DecOut::Good(
                SpecValue::Variant("PONG"@, Box::new(payload)),
                z0,
            ));
            assert(spec_decode(s, DecState { toks, fields: 0 }) == spec_union(
                vs,
                "PONG"@,
                0,
                st2,
            ));
        },
        Command::Nick { nickname } => {
            let payload = SpecValue::Tuple(seq![SpecValue::Text(nickname@)]);
            lemma_payload_one_text(vs[3].1, nickname@);
            let ptoks = seq![nickname@];
            assert(sv_tokens(spec_command_value(c)) == seq!["NICK"@] + ptoks);
            let toks = seq!["NICK"@] + ptoks;
            assert(toks[0] == "NICK"@);
            assert(toks.drop_first() =~= ptoks);
            let st2 = DecState { toks: ptoks, fields: 0nat };
            lemma_union_skip(vs, "NICK"@, 0, st2);
            lemma_union_skip(vs, "NICK"@, 1, st2);
            lemma_union_skip(vs, "NICK"@, 2, st2);
            assert(spec_union(vs, "NICK"@, 3, st2) == DecOut::Good(
                SpecValue::Variant("NICK"@, Box::new(payload)),
                z0,
            ));
            assert(spec_decode(s, DecState { toks, fields: 0 }) == spec_union(
                vs,
                "NICK"@,
                0,
                st2,
            ));
        },
        Command::User { username, realname } => {
            let payload = SpecValue::Tuple(
                seq![SpecValue::Text(username@), SpecValue::Text(realname@)],
            );
            lemma_payload_two_texts(vs[4].1, username@, realname@);
            let ptoks = seq![username@, realname@];
            assert(sv_tokens(spec_command_value(c)) == seq!["USER"@] + ptoks);
            let toks = seq!["USER"@] + ptoks;
            assert(toks[0] == "USER"@);
            assert(toks.drop_first() =~= ptoks);
            let st2 = DecState { toks: ptoks, fields: 0nat };
            lemma_union_skip(vs, "USER"@, 0, st2);
            lemma_union_skip(vs, "USER"@, 1, st2);
            lemma_union_skip(vs, "USER"@, 2, st2);
            lemma_union_skip(vs, "USER"@, 3, st2);
            assert(spec_union(vs, "USER"@, 4, st2) == DecOut::Good(
                SpecValue::Variant("USER"@, Box::new(payload)),
                z0,
            ));
            assert(spec_decode(s, DecState { toks, fields: 0 }) == spec_union(
                vs,
                "USER"@,
                0,
                st2,
            ));
        },
        Command::Kick { channel, users, reason } => {
            let ts = users.deep_view();
            assert(forall|i: int| 0 <= i < ts.len() ==> ts[i] == #[trigger] users@[i]@);
            assert(forall|i: int| 0 <= i < ts.len() ==> !(#[trigger] ts[i]).contains(','));
            assert(ts.len() == 0 || ts.last().len() > 0);
            let third = spec_maybe_text(reason);
            let rv = match reason {
                Some(r) => Some(r@),
                None => None,
            };
            assert(text_items(ts) =~= texts_of(users@));
            let payload = SpecValue::Tuple(
                seq![SpecValue::Text(channel@), SpecValue::List(texts_of(users@)), third],
            );
            lemma_payload_kick(vs[5].1, channel@, ts, rv);
            let ptoks = match rv {
                Some(r) => seq![channel@, join_commas(ts), r],
                None => seq![channel@, join_commas(ts)],
            };
            assert(match rv {
                Some(r) => third == SpecValue::Maybe(Some(Box::new(SpecValue::Text(r)))),
                None => third == SpecValue::Maybe(None),
            });
            assert(sv_tokens(payload) == ptoks);
            assert(sv_tokens(spec_command_value(c)) == seq!["KICK"@] + ptoks);
            let toks = seq!["KICK"@] + ptoks;
            assert(toks[0] == "KICK"@);
            assert(toks.drop_first() =~= ptoks);
            let st2 = DecState { toks: ptoks, fields: 0nat };
            lemma_union_skip(vs, "KICK"@, 0, st2);
            lemma_union_skip(vs, "KICK"@, 1, st2);
            lemma_union_skip(vs, "KICK"@, 2, st2);
            lemma_union_skip(vs, "KICK"@, 3, st2);
            lemma_union_skip(vs, "KICK"@, 4, st2);
            assert(spec_union(vs, "KICK"@, 5, st2) == DecOut::Good(
                SpecValue::Variant("KICK"@, Box::new(payload)),
                z0,
            ));
            assert(spec_decode(s, DecState { toks, fields: 0 }) == spec_union(
                vs,
                "KICK"@,
                0,
                st2,
            ));
        },
        Command::Topic { channel, topic } => {
            let second = spec_maybe_text(topic);
            let payload = SpecValue::Tuple(seq![SpecValue::Text(channel@), second]);
            let tv = match topic {
                Some(t) => Some(t@),
                None => None,
            };
            match tv {
                Some(t) => {
                    lemma_optional_field_round_trip(vs[6].1, channel@, t);
                    lemma_optional_field_tokens(channel@, t);
                },
                None => {
                    lemma_optional_field_round_trip(vs[6].1, channel@, Seq::empty());
                    lemma_optional_field_tokens(channel@, Seq::empty());
                },
            }
            let ptoks = match tv {
                Some(t) => seq![channel@, t],
                None => seq![channel@],
            };
            assert(match tv {
                Some(t) => second == SpecValue::Maybe(Some(Box::new(SpecValue::Text(t)))),
                None => second == SpecValue::Maybe(None),
            });
            assert(sv_tokens(payload) == ptoks);
            assert(sv_tokens(spec_command_value(c)) == seq!["TOPIC"@] + ptoks);
            let toks = seq!["TOPIC"@] + ptoks;
            assert(toks[0] == "TOPIC"@);
            assert(toks.drop_first() =~= ptoks);
            let st2 = DecState { toks: ptoks, fields: 0nat };
            lemma_union_skip(vs, "TOPIC"@, 0, st2);
            lemma_union_skip(vs, "TOPIC"@, 1, st2);
            lemma_union_skip(vs, "TOPIC"@, 2, st2);
            lemma_union_skip(vs, "TOPIC"@, 3, st2);
            lemma_union_skip(vs, "TOPIC"@, 4, st2);
            lemma_union_skip(vs, "TOPIC"@, 5, st2);
            assert(spec_decode(vs[6].1, st2) == DecOut::Good(payload, z0));
            assert(spec_union(vs, "TOPIC"@, 6, st2) == DecOut::Good(
                SpecValue::Variant("TOPIC"@, Box::new(payload)),
                z0,
            ));
            assert(spec_decode(s, DecState { toks, fields: 0 }) == spec_union(
                vs,
                "TOPIC"@,
                0,
                st2,
            ));
        },
    }
}

/// End to end: a wire-safe command whose tokens are all plain (but
/// possibly the last) survives the whole pipeline. Rendered as a raw line
/// with its first token as the command, the line parses back to the same
/// message, and decoding the message's tokens against the command shape
/// recovers the command's exact value.
pub proof fn lemma_command_line_round_trip(s: Shape, c: Command)
    requires
        is_command_shape(s),
        command_wire_safe(c),
        plain_token(sv_tokens(spec_command_value(c))[0]),
        forall|i: int|
            0 <= i < sv_tokens(spec_command_value(c)).len() - 1 ==> plain_token(
                #[trigger] sv_tokens(spec_command_value(c))[i],
            ),
    ensures
        ({
            let toks = sv_tokens(spec_command_value(c));
            let m = SpecMessage {
                source: None,
                command: toks[0],
                parameters: toks.drop_first(),
            };
            &&& spec_parse(spec_render(m)) == m
            &&& spec_decode(s, DecState { toks, fields: 0 }) == DecOut::Good(
                spec_command_value(c),
                DecState { toks: Seq::empty(), fields: 0 },
            )
        }),
{
    let toks = sv_tokens(spec_command_value(c));
    assert(toks.len() >= 1) by {
        match c {
            Command::Cap(inner) => {
                assert(spec_command_value(c) is Variant);
            },
            Command::Authenticate { mechanism } => {
                assert(spec_command_value(c) is Variant);
            },
            Command::Pong { server, token } => {
                assert(spec_command_value(c) is Variant);
            },
            Command::Nick { nickname } => {
                assert(spec_command_value(c) is Variant);
            },
            Command::User { username, realname } => {
                assert(spec_command_value(c) is Variant);
            },
            Command::Kick { channel, users, reason } => {
                assert(spec_command_value(c) is Variant);
            },
            Command::Topic { channel, topic } => {
                assert(spec_command_value(c) is Variant);
            },
        }
    }
    let m = SpecMessage { source: None, command: toks[0], parameters: toks.drop_first() };
    assert(crate::wf_message(m)) by {
        assert(forall|i: int|
            0 <= i < m.parameters.len() - 1 ==> plain_token(#[trigger] m.parameters[i])) by {
            assert(forall|i: int|
                0 <= i < m.parameters.len() - 1 ==> m.parameters[i] == toks[i + 1]
                    && plain_token(#[trigger] toks[i + 1]));
        }
    }
    lemma_message_round_trip(m);
    lemma_command_wire_round_trip(s, c);
}

} // verus!
