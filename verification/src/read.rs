//! The reference/DAG reader. A registry maps type keys to the right to
//! decode; its read loop consumes top-level frames until the end of the
//! stream, checking that ids arrive densely, and resolves every reference to
//! a frame decoded earlier. The last frame's node is the stream's root.
use crate::block::Reader;
use crate::dynobj::DynObj;
use crate::envelope::{
    envelope_bytes, lemma_obj_backward_compat, lemma_obj_read_advances, obj_read, read_obj,
};
use crate::primitive::lemma_from_le_bound;
use crate::tag::{
    enc_value, expect_at, lemma_enc_value_len, lemma_expect_enc, lemma_marker_bytes,
    lemma_pow256_values, lemma_skip_advances, lemma_subrange_of_eq, lemma_token_enc, skip_end,
    TagRead, Value, TAG_BEGIN, TAG_U128, TAG_U32,
};
use crate::write::{dag_stream_ok, frame_bytes, frame_enc, frames_bytes, lemma_frames_concat, wf_store};
use crate::{render, Deserialize, Error, Read, ReadPrimitive, SerializationNode, TypeKey};
use vstd::prelude::*;

verus! {

/// The reader that drives a DAG decode: the byte source and the count of
/// frames decoded so far, which bounds the ids a reference may name.
pub struct DagReader {
    pub r: Reader,
    pub cnt: usize,
}

impl ReadPrimitive for DagReader {
    open spec fn data(&self) -> Seq<u8> {
        self.r.data@
    }

    open spec fn at(&self) -> int {
        self.r.pos as int
    }

    open spec fn bound(&self) -> int {
        self.cnt as int
    }

    fn u8(&mut self) -> (r: Result<u8, Error>) {
        self.r.u8()
    }

    fn u16(&mut self) -> (r: Result<u16, Error>) {
        self.r.u16()
    }

    fn u32(&mut self) -> (r: Result<u32, Error>) {
        self.r.u32()
    }

    fn u128(&mut self) -> (r: Result<u128, Error>) {
        self.r.u128()
    }

    fn str(&mut self) -> (r: Result<String, Error>) {
        Err(Error::NotImplemented)
    }
}

impl TagRead for DagReader {
    fn begin(&mut self) -> (r: Result<(), Error>) {
        self.r.begin()
    }

    fn end(&mut self) -> (r: Result<(), Error>) {
        self.r.end()
    }

    fn primitive(&mut self) -> (r: Result<Value, Error>) {
        self.r.primitive()
    }
}

impl Read for DagReader {
    fn rc(&mut self) -> (r: Result<usize, Error>) {
        let id = self.r.u32()?;
        proof {
            lemma_from_le_bound(
                self.r.data@.subrange(old(self).at() + 1, old(self).at() + 5),
            );
            lemma_pow256_values();
        }
        if (id as usize) < self.cnt {
            Ok(id as usize)
        } else {
            Err(Error::ObjNotFound)
        }
    }
}

/// What decoding the frame at `pos` yields with `bound` earlier frames in
/// hand: the frame's id, its node and the position after its `END`. Nothing
/// where the reader errors: a malformed header, an unregistered or foreign
/// type key, or a failing body.
pub open spec fn frame_read<N: Deserialize + TypeKey>(
    keys: Seq<u128>,
    s: Seq<u8>,
    pos: int,
    bound: int,
) -> Option<(u32, N, int)> {
    match expect_at(s, pos, TAG_BEGIN) {
        Err(_) => None,
        Ok(bp) => match expect_at(s, bp.1, TAG_U32) {
            Err(_) => None,
            Ok(ip) => match expect_at(s, ip.1, TAG_U128) {
                Err(_) => None,
                Ok(kp) => if !keys.contains(kp.0 as u128) || kp.0 as u128
                    != N::spec_type_key() {
                    None
                } else {
                    match obj_read::<N>(s, kp.1, bound) {
                        None => None,
                        Some((x, p)) => match skip_end(s, p, 0) {
                            Err(_) => None,
                            Ok(p2) => Some((ip.0 as u32, x, p2)),
                        },
                    }
                },
            },
        },
    }
}

/// What decoding a whole stream from `pos` yields, `table` frames already in
/// hand: the finished id table, or nothing where a frame fails or breaks the
/// dense id order.
pub open spec fn stream_read<N: Deserialize + TypeKey>(
    keys: Seq<u128>,
    s: Seq<u8>,
    pos: int,
    table: Seq<N>,
) -> Option<Seq<N>>
    decreases s.len() - pos,
{
    if pos < 0 || pos >= s.len() {
        if pos == s.len() {
            Some(table)
        } else {
            None
        }
    } else {
        match frame_read::<N>(keys, s, pos, table.len() as int) {
            None => None,
            Some((id, x, p2)) => if id as int == table.len() && pos < p2 <= s.len() {
                stream_read(keys, s, p2, table.push(x))
            } else {
                None
            },
        }
    }
}

/// The dispatch registry: the type keys whose deserializer is on hand. This
/// registry drives a single node universe `N`; registering a type records its
/// key, and a frame whose key was never registered is refused before any of
/// its body is decoded.
pub struct DeserializerRegistry {
    pub keys: Vec<u128>,
}

impl DeserializerRegistry {
    /// An empty registry: every frame is refused.
    pub fn new() -> (r: DeserializerRegistry)
        ensures
            r.keys@ == Seq::<u128>::empty(),
    {
        DeserializerRegistry { keys: Vec::new() }
    }

    /// Records `T`'s type key, so that frames naming it are decoded.
    pub fn register<T: TypeKey>(&mut self)
        ensures
            final(self).keys@ == old(self).keys@.push(T::spec_type_key()),
    {
        let k = T::type_key();
        self.keys.push(k);
    }

    /// Whether a key was registered.
    fn is_registered(&self, key: u128) -> (r: bool)
        ensures
            r <==> self.keys@.contains(key),
    {
        let mut i: usize = 0;
        while i < self.keys.len()
            invariant
                i <= self.keys@.len(),
                forall|j: int| 0 <= j < i ==> self.keys@[j] != key,
            decreases self.keys@.len() - i,
        {
            if self.keys[i] == key {
                return true;
            }
            i = i + 1;
        }
        false
    }

    /// Reads one top-level frame: `BEGIN`, the id, the type key, the object
    /// envelope, then skip-to-end for the frame's own trailing fields. A key
    /// that was never registered is `DeserializerNotFound`, before any user
    /// decoding runs.
    fn read_frame<N: Deserialize + TypeKey>(&self, dr: &mut DagReader) -> (r: Result<
        (u32, N),
        Error,
    >)
        requires
            0 <= old(dr).at() <= old(dr).data().len(),
        ensures
            final(dr).data() == old(dr).data(),
            final(dr).bound() == old(dr).bound(),
            0 <= final(dr).at() <= final(dr).data().len(),
            match frame_read::<N>(self.keys@, old(dr).data(), old(dr).at(), old(dr).bound()) {
                Some((id, x, p)) => r == Ok::<(u32, N), Error>((id, x)) && final(dr).at() == p,
                None => r is Err,
            },
            (match expect_at(old(dr).data(), old(dr).at(), TAG_BEGIN) {
                Ok(bp) => match expect_at(old(dr).data(), bp.1, TAG_U32) {
                    Ok(ip) => match expect_at(old(dr).data(), ip.1, TAG_U128) {
                        Ok(kp) => !self.keys@.contains(kp.0 as u128) ==> r == Err::<
                            (u32, N),
                            Error,
                        >(Error::DeserializerNotFound),
                        Err(_) => true,
                    },
                    Err(_) => true,
                },
                Err(_) => true,
            }),
    {
        dr.begin()?;
        let id = dr.u32()?;
        let key = dr.u128()?;
        if !self.is_registered(key) {
            return Err(Error::DeserializerNotFound);
        }
        if key != N::type_key() {
            return Err(Error::ObjNotFound);
        }
        let x = read_obj::<N, DagReader>(dr)?;
        dr.end()?;
        Ok((id, x))
    }

    /// Drives the read loop over a whole stream: one frame after another up
    /// to the end of input, each id checked to arrive densely. The decoded
    /// graph is handed back whole; its root is the last node. An empty
    /// stream holds no root and is `ObjNotFound`.
    #[verifier::loop_isolation(false)]
    pub fn read_object<N: Deserialize + TypeKey>(&self, data: Vec<u8>) -> (r: Result<
        DynObj<N>,
        Error,
    >)
        ensures
            match stream_read::<N>(self.keys@, data@, 0, Seq::<N>::empty()) {
                Some(table) => if table.len() > 0 {
                    r matches Ok(d) && d.nodes@ == table
                } else {
                    r == Err::<DynObj<N>, Error>(Error::ObjNotFound)
                },
                None => r is Err,
            },
    {
        let ghost s = data@;
        let mut dr = DagReader { r: crate::block::create_reader(data), cnt: 0 };
        let mut table: Vec<N> = Vec::new();
        loop
            invariant
                dr.data() == s,
                0 <= dr.at() <= s.len(),
                dr.bound() == table@.len(),
                stream_read::<N>(self.keys@, s, 0, Seq::<N>::empty()) == stream_read::<N>(
                    self.keys@,
                    s,
                    dr.at(),
                    table@,
                ),
            decreases s.len() - dr.at(),
        {
            if dr.r.at_end() {
                if table.len() == 0 {
                    return Err(Error::ObjNotFound);
                }
                return Ok(DynObj::new(table));
            }
            let ghost pos0 = dr.at();
            let fr = self.read_frame::<N>(&mut dr);
            match fr {
                Err(e) => {
                    return Err(e);
                },
                Ok((id, x)) => {
                    proof {
                        match frame_read::<N>(self.keys@, s, pos0, table@.len() as int) {
                            Some((gid, gx, gp)) => {
                                lemma_frame_read_advances::<N>(
                                    self.keys@,
                                    s,
                                    pos0,
                                    table@.len() as int,
                                );
                            },
                            None => {},
                        }
                    }
                    if (id as usize) != table.len() {
                        return Err(Error::ObjNotFound);
                    }
                    table.push(x);
                    dr.cnt = table.len();
                },
            }
        }
    }
}

/// A decoded frame always moves the cursor forward and stays in the stream.
pub proof fn lemma_frame_read_advances<N: Deserialize + TypeKey>(
    keys: Seq<u128>,
    s: Seq<u8>,
    pos: int,
    bound: int,
)
    ensures
        frame_read::<N>(keys, s, pos, bound) matches Some((id, x, p)) ==> pos < p <= s.len(),
{
    match expect_at(s, pos, TAG_BEGIN) {
        Err(_) => {},
        Ok(bp) => match expect_at(s, bp.1, TAG_U32) {
            Err(_) => {},
            Ok(ip) => match expect_at(s, ip.1, TAG_U128) {
                Err(_) => {},
                Ok(kp) => {
                    match obj_read::<N>(s, kp.1, bound) {
                        None => {},
                        Some((x, p)) => {
                            lemma_obj_read_advances::<N>(s, kp.1, bound);
                            lemma_skip_advances(s, p, 0);
                        },
                    }
                },
            },
        },
    }
}

/// One step of the stream round trip: from the boundary before the frame
/// emitted `t`-th, with the first `t` nodes decoded, the rest of the stream
/// decodes too.
#[verifier::rlimit(100)]
proof fn lemma_stream_read_from<N: Deserialize + TypeKey + SerializationNode>(
    keys: Seq<u128>,
    store: Seq<N>,
    root: int,
    order: Seq<int>,
    m: Map<int, u32>,
    s: Seq<u8>,
    t: int,
    phi: spec_fn(int) -> N,
)
    requires
        wf_store(store),
        dag_stream_ok(store, root, order, m, s),
        keys.contains(N::spec_type_key()),
        forall|j: int, rest: Seq<u8>|
            0 <= j < order.len() ==> N::decode(
                N::spec_version(),
                #[trigger] (render(store[order[j]].body(), m) + rest),
                j,
            ) == Some((phi(order[j]), render(store[order[j]].body(), m).len() as int)),
        0 <= t <= order.len(),
    ensures
        stream_read::<N>(
            keys,
            s,
            frames_bytes(store, order, 0, t, m).len() as int,
            Seq::new(t as nat, |j: int| phi(order[j])),
        ) == Some(Seq::new(order.len() as nat, |j: int| phi(order[j]))),
    decreases order.len() - t,
{
    let pos = frames_bytes(store, order, 0, t, m).len() as int;
    let table = Seq::new(t as nat, |j: int| phi(order[j]));
    lemma_frames_concat(store, order, 0, t, order.len() as int, m);
    if t == order.len() {
        assert(frames_bytes(store, order, t, order.len() as int, m) =~= Seq::<u8>::empty());
        assert(pos == s.len());
        assert(table =~= Seq::new(order.len() as nat, |j: int| phi(order[j])));
    } else {
        lemma_frames_concat(store, order, t, t + 1, order.len() as int, m);
        assert(frames_bytes(store, order, t + 1, t + 1, m) =~= Seq::<u8>::empty());
        let fr = frame_bytes(store, order, t, m);
        assert(frames_bytes(store, order, t, t + 1, m) =~= fr);
        let a = frames_bytes(store, order, 0, t, m);
        let c = frames_bytes(store, order, t + 1, order.len() as int, m);
        assert(s =~= a + fr + c);
        assert forall|q: int| 0 <= q < fr.len() implies #[trigger] s[pos + q] == fr[q] by {
            assert((a + fr + c)[pos + q] == fr[q]);
        }
        assert(s.subrange(pos, pos + fr.len()) =~= fr);
        let b = render(store[order[t]].body(), m);
        let env = envelope_bytes(N::spec_version(), b);
        lemma_enc_value_len(Value::U32(t as u32));
        lemma_enc_value_len(Value::U128(N::spec_type_key()));
        lemma_enc_value_len(Value::U16(N::spec_version()));
        lemma_marker_bytes();
        let idu = t as u32;
        let key = N::spec_type_key();
        assert(fr == frame_enc(idu, key, env));
        assert(frame_enc(idu, key, env) == seq![crate::tag::TAG_BEGIN] + enc_value(
            Value::U32(idu),
        ) + enc_value(Value::U128(key)) + env + seq![crate::tag::TAG_END]);
        assert(fr =~= seq![crate::tag::TAG_BEGIN] + enc_value(Value::U32(t as u32)) + enc_value(
            Value::U128(N::spec_type_key()),
        ) + env + seq![crate::tag::TAG_END]);
        assert(env.len() == 5 + b.len());
        assert(fr.len() == 24 + env.len());
        // The frame header.
        lemma_subrange_of_eq(s, pos, fr, 0, 1);
        assert(fr.subrange(0, 1) =~= enc_value(Value::Begin));
        lemma_expect_enc(s, pos, Value::Begin);
        lemma_subrange_of_eq(s, pos, fr, 1, 6);
        assert(fr.subrange(1, 6) =~= enc_value(Value::U32(t as u32)));
        lemma_expect_enc(s, pos + 1, Value::U32(t as u32));
        lemma_subrange_of_eq(s, pos, fr, 6, 23);
        assert(fr.subrange(6, 23) =~= enc_value(Value::U128(N::spec_type_key())));
        lemma_expect_enc(s, pos + 6, Value::U128(N::spec_type_key()));
        // The envelope decodes to the node the caller promised.
        lemma_subrange_of_eq(s, pos, fr, 23, 23 + env.len() as int);
        assert(fr.subrange(23, 23 + env.len() as int) =~= env);
        assert forall|rest: Seq<u8>|
            N::decode(N::spec_version(), #[trigger] (b + rest), t) == Some(
                (phi(order[t]), b.len() as int),
            ) by {
            assert(N::decode(
                N::spec_version(),
                render(store[order[t]].body(), m) + rest,
                t,
            ) == Some((phi(order[t]), render(store[order[t]].body(), m).len() as int)));
        }
        lemma_obj_backward_compat::<N>(s, pos + 23, t, N::spec_version(), b, phi(order[t]));
        // The frame terminator, then the next frame boundary.
        let pe = pos + 23 + env.len() as int;
        lemma_subrange_of_eq(s, pos, fr, 23 + env.len() as int, fr.len() as int);
        assert(fr.subrange(23 + env.len() as int, fr.len() as int) =~= enc_value(Value::End));
        lemma_token_enc(s, pe, Value::End);
        assert(skip_end(s, pe, 0) == Ok::<int, Error>(pe + 1));
        assert(frame_read::<N>(keys, s, pos, t) == Some(
            (t as u32, phi(order[t]), pe + 1),
        ));
        assert(pe + 1 == pos + fr.len());
        assert(frames_bytes(store, order, 0, t + 1, m).len() == pos + fr.len()) by {
            lemma_frames_concat(store, order, 0, t, t + 1, m);
        }
        assert(table.push(phi(order[t])) =~= Seq::new((t + 1) as nat, |j: int| phi(order[j])));
        lemma_stream_read_from(keys, store, root, order, m, s, t + 1, phi);
        assert(pos < s.len());
        assert(stream_read::<N>(keys, s, pos, table) == stream_read::<N>(
            keys,
            s,
            pe + 1,
            table.push(phi(order[t])),
        ));
    }
}

/// Identity preservation, reader side: a stream the writer produced for a
/// graph of `k` reached nodes decodes to exactly `k` nodes, the one emitted
/// `j`-th under id `j`, provided the type's decode inverts its rendered body
/// — so sharing survives: every reference that named one node on the wire
/// resolves to the one decoded entry that node became.
pub proof fn lemma_identity_preservation<N: Deserialize + TypeKey + SerializationNode>(
    keys: Seq<u128>,
    store: Seq<N>,
    root: int,
    order: Seq<int>,
    m: Map<int, u32>,
    s: Seq<u8>,
    phi: spec_fn(int) -> N,
)
    requires
        wf_store(store),
        dag_stream_ok(store, root, order, m, s),
        keys.contains(N::spec_type_key()),
        forall|j: int, rest: Seq<u8>|
            0 <= j < order.len() ==> N::decode(
                N::spec_version(),
                #[trigger] (render(store[order[j]].body(), m) + rest),
                j,
            ) == Some((phi(order[j]), render(store[order[j]].body(), m).len() as int)),
    ensures
        stream_read::<N>(keys, s, 0, Seq::<N>::empty()) == Some(
            Seq::new(order.len() as nat, |j: int| phi(order[j])),
        ),
{
    assert(Seq::new(0nat, |j: int| phi(order[j])) =~= Seq::<N>::empty());
    assert(frames_bytes(store, order, 0, 0, m) =~= Seq::<u8>::empty());
    lemma_stream_read_from(keys, store, root, order, m, s, 0, phi);
}


} // verus!
