//! The smallest codec implementation, written and verified against the
//! serialize/deserialize contracts. It doubles as the shape a user type
//! follows: a fixed-width body at schema version zero, a `decode` that says
//! exactly which streams build which value, and proofs that the executable
//! code matches both.
use crate::envelope::{envelope_bytes, lemma_obj_round_trip, obj_read};
use crate::tag::{
    enc_value, expect_at, lemma_enc_value_len, lemma_expect_enc, lemma_expect_shift,
    lemma_subrange_of_eq, Value, TAG_U16, TAG_U32,
};
use crate::{item_tokens, render, BodyItem, Deserialize, Error, Read, Serialize, Write};
use vstd::prelude::*;

verus! {

/// A pair of integers: the reference codec type.
#[derive(Clone, Copy, Debug, PartialEq, Eq, Structural)]
pub struct Pair {
    pub a: u32,
    pub b: u16,
}

/// The body of a pair: its two fields as tagged tokens, in order.
pub open spec fn pair_body(p: Pair) -> Seq<BodyItem> {
    seq![BodyItem::Tok(Value::U32(p.a)), BodyItem::Tok(Value::U16(p.b))]
}

/// The bytes of a pair's body: no references, so the rendering is the same
/// under every id assignment.
pub open spec fn pair_bytes(p: Pair) -> Seq<u8> {
    enc_value(Value::U32(p.a)) + enc_value(Value::U16(p.b))
}

/// What decoding a pair body builds: the two fields, eight bytes consumed;
/// only version zero is understood.
pub open spec fn pair_decode(version: u16, s: Seq<u8>) -> Option<(Pair, int)> {
    if version == 0 {
        match expect_at(s, 0, TAG_U32) {
            Err(_) => None,
            Ok(ap) => match expect_at(s, ap.1, TAG_U16) {
                Err(_) => None,
                Ok(bp) => Some((Pair { a: ap.0 as u32, b: bp.0 as u16 }, bp.1)),
            },
        }
    } else {
        None
    }
}

pub proof fn lemma_pair_render(p: Pair, ids: Map<int, u32>)
    ensures
        render(pair_body(p), ids) == pair_bytes(p),
{
    assert(item_tokens(pair_body(p), ids) =~= seq![Value::U32(p.a), Value::U16(p.b)]);
    let ts = seq![Value::U32(p.a), Value::U16(p.b)];
    assert(ts.subrange(1, 2) =~= seq![Value::U16(p.b)]);
    assert(seq![Value::U16(p.b)].subrange(1, 1) =~= Seq::<Value>::empty());
    assert(crate::tag::enc_values(Seq::<Value>::empty()) =~= Seq::<u8>::empty());
    assert(crate::tag::enc_values(seq![Value::U16(p.b)]) =~= enc_value(Value::U16(p.b)));
    assert(crate::tag::enc_values(ts) =~= pair_bytes(p));
}

impl Serialize for Pair {
    open spec fn spec_version() -> u16 {
        0
    }

    open spec fn body(&self) -> Seq<BodyItem> {
        pair_body(*self)
    }

    fn version() -> (v: u16) {
        0
    }

    fn serialize<W: Write>(&self, w: &mut W) -> (r: Result<(), Error>) {
        w.u32(self.a)?;
        w.u16(self.b)?;
        proof {
            lemma_pair_render(*self, old(w).refs());
            assert(w.stream() =~= old(w).stream() + render(self.body(), old(w).refs()));
        }
        Ok(())
    }
}

impl Deserialize for Pair {
    open spec fn decode(version: u16, s: Seq<u8>, bound: int) -> Option<(Pair, int)> {
        pair_decode(version, s)
    }

    fn deserialize<R: Read>(r: &mut R, version: u16) -> (res: Result<Pair, Error>) {
        if version != 0 {
            return Err(Error::NotImplemented);
        }
        let ghost s = old(r).data();
        let ghost p0 = old(r).at();
        proof {
            lemma_expect_shift(s, p0, 0, TAG_U32);
        }
        let a = r.u32()?;
        proof {
            lemma_expect_shift(s, p0, r.at() - p0, TAG_U16);
        }
        let b = r.u16()?;
        Ok(Pair { a, b })
    }
}

/// Round trip of the reference codec: an instance of the envelope law. An
/// envelope holding a pair's own bytes at version zero reads back that pair,
/// whatever follows it on the stream.
pub proof fn lemma_pair_round_trip(x: Pair, s: Seq<u8>, pos: int, bound: int)
    requires
        0 <= pos,
        pos + envelope_bytes(0u16, pair_bytes(x)).len() <= s.len(),
        s.subrange(pos, pos + envelope_bytes(0u16, pair_bytes(x)).len()) == envelope_bytes(
            0u16,
            pair_bytes(x),
        ),
    ensures
        obj_read::<Pair>(s, pos, bound) == Some(
            (x, pos + envelope_bytes(0u16, pair_bytes(x)).len()),
        ),
{
    let m = Map::<int, u32>::empty();
    lemma_pair_render(x, m);
    lemma_enc_value_len(Value::U32(x.a));
    lemma_enc_value_len(Value::U16(x.b));
    assert forall|rest: Seq<u8>|
        Pair::decode(0u16, #[trigger] (pair_bytes(x) + rest), bound) == Some(
            (x, pair_bytes(x).len() as int),
        ) by {
        let t = pair_bytes(x) + rest;
        assert(t.subrange(0, pair_bytes(x).len() as int) =~= pair_bytes(x));
        lemma_subrange_of_eq(t, 0, pair_bytes(x), 0, 5);
        assert(pair_bytes(x).subrange(0, 5) =~= enc_value(Value::U32(x.a)));
        lemma_expect_enc(t, 0, Value::U32(x.a));
        lemma_subrange_of_eq(t, 0, pair_bytes(x), 5, 8);
        assert(pair_bytes(x).subrange(5, 8) =~= enc_value(Value::U16(x.b)));
        lemma_expect_enc(t, 5, Value::U16(x.b));
        assert((x.a as nat) as u32 == x.a);
        assert((x.b as nat) as u16 == x.b);
    }
    assert forall|rest: Seq<u8>|
        Pair::decode(Pair::spec_version(), #[trigger] (render(pair_body(x), m) + rest), bound)
            == Some((x, render(pair_body(x), m).len() as int)) by {
        assert(render(pair_body(x), m) + rest == pair_bytes(x) + rest);
    }
    lemma_obj_round_trip::<Pair>(x, m, s, pos, bound);
    assert(envelope_bytes(Pair::spec_version(), render(x.body(), m)) == envelope_bytes(
        0u16,
        pair_bytes(x),
    ));
}

} // verus!
