//! The smallest graph-node implementation, written and verified against the
//! serialization-node contracts: a node is either a leaf holding a number,
//! or a cell holding a number and a reference to an earlier node. It shows
//! the shape a user's node type follows — a variant marker, reference fields
//! written through the identity table, and a `decode` that checks every
//! reference against the ids decoded so far — and it closes the graph laws:
//! for chains, the writer's stream provably decodes back node for node.
use crate::read::{lemma_identity_preservation, stream_read};
use crate::tag::{
    enc_value, expect_at, lemma_enc_value_len, lemma_expect_enc, lemma_expect_shift,
    lemma_subrange_of_eq, Value, TAG_U32, TAG_U8,
};
use crate::write::{dag_stream_ok, wf_store};
use crate::{
    item_tokens, render, BodyItem, Deserialize, Error, Read, SerializationNode, Serialize,
    TypeKey, Write,
};
use vstd::prelude::*;

verus! {

/// The type key a chain node carries on the wire.
pub const CHAIN_KEY: u128 = 0x636861696e;

/// A chain node: a leaf, or a cell referencing one earlier node. On the
/// writer side the reference is a store index; on the reader side it is the
/// id of the frame the target was decoded from.
#[derive(Clone, Copy, Debug, PartialEq, Eq, Structural)]
pub enum Chain {
    Nil(u32),
    Cons(usize, u32),
}

/// The body of a chain node: a one-byte variant marker, the reference where
/// there is one, then the payload.
pub open spec fn chain_body(c: Chain) -> Seq<BodyItem> {
    match c {
        Chain::Nil(d) => seq![BodyItem::Tok(Value::U8(0)), BodyItem::Tok(Value::U32(d))],
        Chain::Cons(p, d) => seq![
            BodyItem::Tok(Value::U8(1)),
            BodyItem::Ref(p as int),
            BodyItem::Tok(Value::U32(d)),
        ],
    }
}

/// What decoding a chain body builds with `bound` earlier frames in hand:
/// the variant by its marker, any reference checked to name an earlier
/// frame; only version zero is understood.
pub open spec fn chain_decode(version: u16, s: Seq<u8>, bound: int) -> Option<(Chain, int)> {
    if version != 0 {
        None
    } else {
        match expect_at(s, 0, TAG_U8) {
            Err(_) => None,
            Ok(tp) => if tp.0 == 0 {
                match expect_at(s, tp.1, TAG_U32) {
                    Err(_) => None,
                    Ok(dp) => Some((Chain::Nil(dp.0 as u32), dp.1)),
                }
            } else if tp.0 == 1 {
                match expect_at(s, tp.1, TAG_U32) {
                    Err(_) => None,
                    Ok(rp) => if rp.0 < bound {
                        match expect_at(s, rp.1, TAG_U32) {
                            Err(_) => None,
                            Ok(dp) => Some((Chain::Cons(rp.0 as usize, dp.0 as u32), dp.1)),
                        }
                    } else {
                        None
                    },
                }
            } else {
                None
            },
        }
    }
}

/// The bytes of a chain body under an id assignment.
pub open spec fn chain_bytes(c: Chain, ids: Map<int, u32>) -> Seq<u8> {
    match c {
        Chain::Nil(d) => enc_value(Value::U8(0)) + enc_value(Value::U32(d)),
        Chain::Cons(p, d) => enc_value(Value::U8(1)) + enc_value(Value::U32(ids[p as int]))
            + enc_value(Value::U32(d)),
    }
}

pub proof fn lemma_chain_render(c: Chain, ids: Map<int, u32>)
    ensures
        render(chain_body(c), ids) == chain_bytes(c, ids),
{
    let ts = item_tokens(chain_body(c), ids);
    match c {
        Chain::Nil(d) => {
            assert(ts =~= seq![Value::U8(0), Value::U32(d)]);
            assert(ts.subrange(1, 2) =~= seq![Value::U32(d)]);
            assert(seq![Value::U32(d)].subrange(1, 1) =~= Seq::<Value>::empty());
            assert(crate::tag::enc_values(Seq::<Value>::empty()) =~= Seq::<u8>::empty());
            assert(crate::tag::enc_values(seq![Value::U32(d)]) =~= enc_value(Value::U32(d)));
            assert(crate::tag::enc_values(ts) =~= chain_bytes(c, ids));
        },
        Chain::Cons(p, d) => {
            let r = ids[p as int];
            assert(ts =~= seq![Value::U8(1), Value::U32(r), Value::U32(d)]);
            assert(ts.subrange(1, 3) =~= seq![Value::U32(r), Value::U32(d)]);
            assert(seq![Value::U32(r), Value::U32(d)].subrange(1, 2) =~= seq![Value::U32(d)]);
            assert(seq![Value::U32(d)].subrange(1, 1) =~= Seq::<Value>::empty());
            assert(crate::tag::enc_values(Seq::<Value>::empty()) =~= Seq::<u8>::empty());
            assert(crate::tag::enc_values(seq![Value::U32(d)]) =~= enc_value(Value::U32(d)));
            assert(crate::tag::enc_values(seq![Value::U32(r), Value::U32(d)]) =~= enc_value(
                Value::U32(r),
            ) + enc_value(Value::U32(d)));
            assert(crate::tag::enc_values(ts) =~= chain_bytes(c, ids));
        },
    }
}

impl Serialize for Chain {
    open spec fn spec_version() -> u16 {
        0
    }

    open spec fn body(&self) -> Seq<BodyItem> {
        chain_body(*self)
    }

    fn version() -> (v: u16) {
        0
    }

    fn serialize<W: Write>(&self, w: &mut W) -> (r: Result<(), Error>) {
        match self {
            Chain::Nil(d) => {
                w.u8(0)?;
                w.u32(*d)?;
                proof {
                    lemma_chain_render(*self, old(w).refs());
                    assert(w.stream() =~= old(w).stream() + render(
                        self.body(),
                        old(w).refs(),
                    ));
                }
                Ok(())
            },
            Chain::Cons(p, d) => {
                w.u8(1)?;
                let rr = w.rc(*p);
                match rr {
                    Err(e) => {
                        proof {
                            assert(self.body()[1] matches BodyItem::Ref(t) && t == *p as int);
                        }
                        return Err(e);
                    },
                    Ok(u) => {},
                }
                w.u32(*d)?;
                proof {
                    lemma_chain_render(*self, old(w).refs());
                    assert(w.stream() =~= old(w).stream() + render(
                        self.body(),
                        old(w).refs(),
                    ));
                }
                Ok(())
            },
        }
    }
}

impl Deserialize for Chain {
    open spec fn decode(version: u16, s: Seq<u8>, bound: int) -> Option<(Chain, int)> {
        chain_decode(version, s, bound)
    }

    fn deserialize<R: Read>(r: &mut R, version: u16) -> (res: Result<Chain, Error>) {
        if version != 0 {
            return Err(Error::NotImplemented);
        }
        let ghost s = old(r).data();
        let ghost p0 = old(r).at();
        proof {
            lemma_expect_shift(s, p0, 0, TAG_U8);
            crate::primitive::lemma_from_le_bound(s.subrange(p0 + 1, p0 + 2));
            crate::tag::lemma_pow256_values();
        }
        let k = r.u8()?;
        if k == 0 {
            proof {
                lemma_expect_shift(s, p0, r.at() - p0, TAG_U32);
            }
            let d = r.u32()?;
            Ok(Chain::Nil(d))
        } else if k == 1 {
            proof {
                lemma_expect_shift(s, p0, r.at() - p0, TAG_U32);
            }
            let p = r.rc()?;
            proof {
                lemma_expect_shift(s, p0, r.at() - p0, TAG_U32);
            }
            let d = r.u32()?;
            Ok(Chain::Cons(p, d))
        } else {
            Err(Error::NotImplemented)
        }
    }
}

impl TypeKey for Chain {
    open spec fn spec_type_key() -> u128 {
        CHAIN_KEY
    }

    fn type_key() -> (k: u128) {
        CHAIN_KEY
    }
}

impl SerializationNode for Chain {
    open spec fn deps(&self) -> Seq<int> {
        match *self {
            Chain::Nil(_) => Seq::empty(),
            Chain::Cons(p, _) => seq![p as int],
        }
    }

    fn get_dependencies(&self) -> (dv: Vec<usize>) {
        match self {
            Chain::Nil(_) => {
                let dv: Vec<usize> = Vec::new();
                proof {
                    assert(dv@.map_values(|u: usize| u as int) =~= self.deps());
                }
                dv
            },
            Chain::Cons(p, _) => {
                let mut dv: Vec<usize> = Vec::new();
                dv.push(*p);
                proof {
                    assert(dv@.map_values(|u: usize| u as int) =~= self.deps());
                }
                dv
            },
        }
    }
}

/// The decoded image of a chain node: its reference moves from the store
/// index of its target to the id the target was emitted under.
pub open spec fn chain_reindexed(c: Chain, m: Map<int, u32>) -> Chain {
    match c {
        Chain::Nil(d) => Chain::Nil(d),
        Chain::Cons(p, d) => Chain::Cons(m[p as int] as usize, d),
    }
}

/// End-to-end identity preservation for chains, with nothing left open: the
/// stream the writer produced for a well-formed chain store decodes to one
/// node per emitted frame — that node, its reference re-pointed at the id of
/// the frame its target became.
pub proof fn lemma_chain_stream_round_trip(
    keys: Seq<u128>,
    store: Seq<Chain>,
    root: int,
    order: Seq<int>,
    m: Map<int, u32>,
    s: Seq<u8>,
)
    requires
        wf_store(store),
        dag_stream_ok(store, root, order, m, s),
        keys.contains(CHAIN_KEY),
    ensures
        stream_read::<Chain>(keys, s, 0, Seq::<Chain>::empty()) == Some(
            Seq::new(order.len() as nat, |j: int| chain_reindexed(store[order[j]], m)),
        ),
{
    let phi = |i: int| chain_reindexed(store[i], m);
    assert forall|j: int, rest: Seq<u8>|
        0 <= j < order.len() implies Chain::decode(
        Chain::spec_version(),
        #[trigger] (render(chain_body(store[order[j]]), m) + rest),
        j,
    ) == Some((phi(order[j]), render(chain_body(store[order[j]]), m).len() as int)) by {
        let c = store[order[j]];
        lemma_chain_render(c, m);
        let b = chain_bytes(c, m);
        let t = b + rest;
        assert(t.subrange(0, b.len() as int) =~= b);
        match c {
            Chain::Nil(d) => {
                lemma_enc_value_len(Value::U8(0));
                lemma_enc_value_len(Value::U32(d));
                lemma_subrange_of_eq(t, 0, b, 0, 2);
                assert(b.subrange(0, 2) =~= enc_value(Value::U8(0)));
                lemma_expect_enc(t, 0, Value::U8(0));
                lemma_subrange_of_eq(t, 0, b, 2, 7);
                assert(b.subrange(2, 7) =~= enc_value(Value::U32(d)));
                lemma_expect_enc(t, 2, Value::U32(d));
                assert((d as nat) as u32 == d);
            },
            Chain::Cons(p, d) => {
                let rid = m[p as int];
                // The reference was assigned before this frame: its id is
                // below the frame's own.
                assert(store[order[j]].deps()[0] == p as int);
                assert(m.contains_key(order[j]) && m[order[j]] == j as u32);
                assert(rid < j as u32);
                lemma_enc_value_len(Value::U8(1));
                lemma_enc_value_len(Value::U32(rid));
                lemma_enc_value_len(Value::U32(d));
                lemma_subrange_of_eq(t, 0, b, 0, 2);
                assert(b.subrange(0, 2) =~= enc_value(Value::U8(1)));
                lemma_expect_enc(t, 0, Value::U8(1));
                lemma_subrange_of_eq(t, 0, b, 2, 7);
                assert(b.subrange(2, 7) =~= enc_value(Value::U32(rid)));
                lemma_expect_enc(t, 2, Value::U32(rid));
                lemma_subrange_of_eq(t, 0, b, 7, 12);
                assert(b.subrange(7, 12) =~= enc_value(Value::U32(d)));
                lemma_expect_enc(t, 7, Value::U32(d));
                assert((rid as nat) as usize == rid as usize);
                assert((d as nat) as u32 == d);
                assert(phi(order[j]) == Chain::Cons(rid as usize, d));
            },
        }
    }
    lemma_identity_preservation::<Chain>(keys, store, root, order, m, s, phi);
}

} // verus!
