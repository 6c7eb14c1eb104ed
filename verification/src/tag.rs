//! The tagged wire model. Every value on the wire is one token: a one-byte
//! kind tag followed by a fixed-width little-endian payload. `token_result`
//! parses one token, `skip_end` is the skip-to-end recovery that consumes
//! tokens up to the matching `END`, and `balanced` says when a token sequence
//! brackets its `BEGIN`/`END` pairs properly.
use crate::primitive::{from_le, le_bytes, lemma_le_bytes_len, lemma_le_roundtrip, pow256};
use crate::{Error, ReadPrimitive, WritePrimitive};
use vstd::prelude::*;

verus! {

pub const TAG_BEGIN: u8 = 0;

pub const TAG_END: u8 = 1;

pub const TAG_U8: u8 = 2;

pub const TAG_U16: u8 = 3;

pub const TAG_U32: u8 = 4;

pub const TAG_U128: u8 = 5;

/// One tagged value as it stands on the wire.
#[derive(Clone, Copy, Debug, PartialEq, Eq, Structural)]
pub enum Value {
    Begin,
    End,
    U8(u8),
    U16(u16),
    U32(u32),
    U128(u128),
}

/// The tag byte of a token.
pub open spec fn tag_of(v: Value) -> u8 {
    match v {
        Value::Begin => TAG_BEGIN,
        Value::End => TAG_END,
        Value::U8(_) => TAG_U8,
        Value::U16(_) => TAG_U16,
        Value::U32(_) => TAG_U32,
        Value::U128(_) => TAG_U128,
    }
}

/// The payload width, in bytes, of a legal tag.
pub open spec fn payload_width(t: u8) -> int {
    if t == TAG_U8 {
        1
    } else if t == TAG_U16 {
        2
    } else if t == TAG_U32 {
        4
    } else if t == TAG_U128 {
        16
    } else {
        0
    }
}

/// The numeric payload of a token (zero for the structural markers).
pub open spec fn val_of(v: Value) -> nat {
    match v {
        Value::Begin => 0nat,
        Value::End => 0nat,
        Value::U8(x) => x as nat,
        Value::U16(x) => x as nat,
        Value::U32(x) => x as nat,
        Value::U128(x) => x as nat,
    }
}

/// Rebuilds a token from a legal tag and a payload value that fits it.
pub open spec fn value_of(t: u8, x: nat) -> Value {
    if t == TAG_BEGIN {
        Value::Begin
    } else if t == TAG_END {
        Value::End
    } else if t == TAG_U8 {
        Value::U8(x as u8)
    } else if t == TAG_U16 {
        Value::U16(x as u16)
    } else if t == TAG_U32 {
        Value::U32(x as u32)
    } else {
        Value::U128(x as u128)
    }
}

/// The byte encoding of one token: its tag, then its payload.
pub open spec fn enc_value(v: Value) -> Seq<u8> {
    seq![tag_of(v)] + le_bytes(val_of(v), payload_width(tag_of(v)) as nat)
}

/// The byte encoding of a token sequence.
pub open spec fn enc_values(ts: Seq<Value>) -> Seq<u8>
    decreases ts.len(),
{
    if ts.len() == 0 {
        Seq::empty()
    } else {
        enc_value(ts[0]) + enc_values(ts.subrange(1, ts.len() as int))
    }
}

/// Parses the token at `pos`. A position outside the stream or a payload cut
/// short is `IoError`; a byte that is not a legal tag is `TagMismatch`.
pub open spec fn token_result(s: Seq<u8>, pos: int) -> Result<(Value, int), Error> {
    if pos < 0 || pos >= s.len() {
        Err(Error::IoError)
    } else if s[pos] > TAG_U128 {
        Err(Error::TagMismatch)
    } else if pos + 1 + payload_width(s[pos]) > s.len() {
        Err(Error::IoError)
    } else {
        Ok(
            (
                value_of(s[pos], from_le(s.subrange(pos + 1, pos + 1 + payload_width(s[pos])))),
                pos + 1 + payload_width(s[pos]),
            ),
        )
    }
}

/// Parses the token at `pos` requiring the tag `t`; any other tag byte,
/// legal or not, is `TagMismatch`. Returns the payload value and the position
/// after the token.
pub open spec fn expect_at(s: Seq<u8>, pos: int, t: u8) -> Result<(nat, int), Error> {
    if pos < 0 || pos >= s.len() {
        Err(Error::IoError)
    } else if s[pos] != t {
        Err(Error::TagMismatch)
    } else if pos + 1 + payload_width(t) > s.len() {
        Err(Error::IoError)
    } else {
        Ok((from_le(s.subrange(pos + 1, pos + 1 + payload_width(t))), pos + 1 + payload_width(t)))
    }
}

/// Where skip-to-end lands when started at `pos` inside `depth` open
/// brackets: tokens are consumed until the `END` that closes the outermost
/// one, recursing through nested `BEGIN`/`END` pairs.
pub open spec fn skip_end(s: Seq<u8>, pos: int, depth: nat) -> Result<int, Error>
    decreases s.len() - pos,
{
    match token_result(s, pos) {
        Err(e) => Err(e),
        Ok((v, p2)) => match v {
            Value::End => if depth == 0 {
                Ok(p2)
            } else {
                skip_end(s, p2, (depth - 1) as nat)
            },
            Value::Begin => skip_end(s, p2, depth + 1),
            _ => skip_end(s, p2, depth),
        },
    }
}

/// How a token changes the bracket depth.
pub open spec fn depth_delta(v: Value) -> int {
    match v {
        Value::Begin => 1,
        Value::End => -1,
        _ => 0,
    }
}

/// The net bracket depth of a token sequence.
pub open spec fn net_depth(ts: Seq<Value>) -> int
    decreases ts.len(),
{
    if ts.len() == 0 {
        0
    } else {
        depth_delta(ts[0]) + net_depth(ts.subrange(1, ts.len() as int))
    }
}

/// A token sequence whose brackets pair up: it closes every `BEGIN` it opens
/// and never closes one it did not open.
pub open spec fn balanced(ts: Seq<Value>) -> bool {
    net_depth(ts) == 0 && (forall|i: int|
        0 <= i < ts.len() && ts[i] is End ==> net_depth(#[trigger] ts.subrange(0, i)) >= 1)
}

/// Output of structural markers around tagged primitives: `begin` and `end`
/// bracket a composite value, `primitive` writes any one token.
pub trait TagWrite: WritePrimitive {
    fn begin(&mut self) -> (r: Result<(), Error>)
        ensures
            r is Ok,
            final(self).stream() == old(self).stream() + enc_value(Value::Begin),
            final(self).refs() == old(self).refs(),
            final(self).idstate() == old(self).idstate(),
    ;

    fn end(&mut self) -> (r: Result<(), Error>)
        ensures
            r is Ok,
            final(self).stream() == old(self).stream() + enc_value(Value::End),
            final(self).refs() == old(self).refs(),
            final(self).idstate() == old(self).idstate(),
    ;

    fn primitive(&mut self, x: Value) -> (r: Result<(), Error>)
        ensures
            r is Ok,
            final(self).stream() == old(self).stream() + enc_value(x),
            final(self).refs() == old(self).refs(),
            final(self).idstate() == old(self).idstate(),
    ;
}

/// Input of structural markers around tagged primitives. On read, `begin`
/// demands a `BEGIN` token; `end` is skip-to-end: it discards whole tokens,
/// nested brackets included, up to and including the matching `END`;
/// `primitive` consumes any one token.
pub trait TagRead: ReadPrimitive {
    fn begin(&mut self) -> (r: Result<(), Error>)
        requires
            0 <= old(self).at() <= old(self).data().len(),
        ensures
            final(self).data() == old(self).data(),
            final(self).bound() == old(self).bound(),
            0 <= final(self).at() <= final(self).data().len(),
            match expect_at(old(self).data(), old(self).at(), TAG_BEGIN) {
                Ok(xp) => r is Ok && final(self).at() == xp.1,
                Err(e) => r == Err::<(), Error>(e) && final(self).at() == old(self).at(),
            },
    ;

    fn end(&mut self) -> (r: Result<(), Error>)
        requires
            0 <= old(self).at() <= old(self).data().len(),
        ensures
            final(self).data() == old(self).data(),
            final(self).bound() == old(self).bound(),
            0 <= final(self).at() <= final(self).data().len(),
            old(self).at() <= final(self).at(),
            match skip_end(old(self).data(), old(self).at(), 0) {
                Ok(p) => r is Ok && final(self).at() == p,
                Err(e) => r == Err::<(), Error>(e),
            },
    ;

    fn primitive(&mut self) -> (r: Result<Value, Error>)
        requires
            0 <= old(self).at() <= old(self).data().len(),
        ensures
            final(self).data() == old(self).data(),
            final(self).bound() == old(self).bound(),
            0 <= final(self).at() <= final(self).data().len(),
            match token_result(old(self).data(), old(self).at()) {
                Ok(vp) => r == Ok::<Value, Error>(vp.0) && final(self).at() == vp.1,
                Err(e) => r == Err::<Value, Error>(e) && final(self).at() == old(self).at(),
            },
    ;
}

pub proof fn lemma_pow256_values()
    ensures
        pow256(1) == 0x100,
        pow256(2) == 0x10000,
        pow256(4) == 0x100000000,
        pow256(16) == 0x100000000000000000000000000000000,
{
    reveal_with_fuel(pow256, 17);
}

pub proof fn lemma_enc_value_len(v: Value)
    ensures
        enc_value(v).len() == 1 + payload_width(tag_of(v)),
        1 <= enc_value(v).len() <= 17,
{
    lemma_le_bytes_len(val_of(v), payload_width(tag_of(v)) as nat);
}

/// Round trip of a single token: parsing the encoding of any token yields
/// that token back, whatever follows it on the wire.
pub proof fn lemma_token_enc(s: Seq<u8>, pos: int, v: Value)
    requires
        0 <= pos,
        pos + enc_value(v).len() <= s.len(),
        s.subrange(pos, pos + enc_value(v).len()) == enc_value(v),
    ensures
        token_result(s, pos) == Ok::<(Value, int), Error>((v, pos + enc_value(v).len())),
{
    let w = payload_width(tag_of(v));
    lemma_enc_value_len(v);
    lemma_le_bytes_len(val_of(v), w as nat);
    lemma_pow256_values();
    assert(s.subrange(pos, pos + enc_value(v).len())[0] == s[pos]);
    assert(s[pos] == tag_of(v));
    assert forall|j: int| 0 <= j < w implies #[trigger] s.subrange(pos + 1, pos + 1 + w)[j]
        == le_bytes(val_of(v), w as nat)[j] by {
        assert(s.subrange(pos + 1, pos + 1 + w)[j] == s[pos + 1 + j]);
        assert(s.subrange(pos, pos + enc_value(v).len())[1 + j] == s[pos + 1 + j]);
        assert(enc_value(v)[1 + j] == le_bytes(val_of(v), w as nat)[j]);
    }
    assert(s.subrange(pos + 1, pos + 1 + w).len() == le_bytes(val_of(v), w as nat).len());
    assert(s.subrange(pos + 1, pos + 1 + w) =~= le_bytes(val_of(v), w as nat));
    lemma_le_roundtrip(val_of(v), w as nat);
    assert(value_of(tag_of(v), val_of(v)) == v);
}

/// As `lemma_token_enc`, for a read that demands the token's own tag.
pub proof fn lemma_expect_enc(s: Seq<u8>, pos: int, v: Value)
    requires
        0 <= pos,
        pos + enc_value(v).len() <= s.len(),
        s.subrange(pos, pos + enc_value(v).len()) == enc_value(v),
    ensures
        expect_at(s, pos, tag_of(v)) == Ok::<(nat, int), Error>(
            (val_of(v), pos + enc_value(v).len()),
        ),
{
    let w = payload_width(tag_of(v));
    lemma_enc_value_len(v);
    lemma_le_bytes_len(val_of(v), w as nat);
    lemma_pow256_values();
    assert(s.subrange(pos, pos + enc_value(v).len())[0] == s[pos]);
    assert(s[pos] == tag_of(v));
    assert forall|j: int| 0 <= j < w implies #[trigger] s.subrange(pos + 1, pos + 1 + w)[j]
        == le_bytes(val_of(v), w as nat)[j] by {
        assert(s.subrange(pos + 1, pos + 1 + w)[j] == s[pos + 1 + j]);
        assert(s.subrange(pos, pos + enc_value(v).len())[1 + j] == s[pos + 1 + j]);
        assert(enc_value(v)[1 + j] == le_bytes(val_of(v), w as nat)[j]);
    }
    assert(s.subrange(pos + 1, pos + 1 + w).len() == le_bytes(val_of(v), w as nat).len());
    assert(s.subrange(pos + 1, pos + 1 + w) =~= le_bytes(val_of(v), w as nat));
    lemma_le_roundtrip(val_of(v), w as nat);
}

pub proof fn lemma_net_depth_cons(v: Value, u: Seq<Value>)
    ensures
        net_depth(seq![v] + u) == depth_delta(v) + net_depth(u),
{
    assert((seq![v] + u).subrange(1, (seq![v] + u).len() as int) =~= u);
}

/// Skipping walks straight over an encoded token sequence, provided no `END`
/// in it closes more brackets than are open when it is met.
pub proof fn lemma_skip_tokens(s: Seq<u8>, pos: int, ts: Seq<Value>, depth: nat)
    requires
        0 <= pos,
        pos + enc_values(ts).len() <= s.len(),
        s.subrange(pos, pos + enc_values(ts).len()) == enc_values(ts),
        forall|i: int|
            0 <= i < ts.len() && ts[i] is End ==> depth + net_depth(
                #[trigger] ts.subrange(0, i),
            ) >= 1,
        depth + net_depth(ts) >= 0,
    ensures
        skip_end(s, pos, depth) == skip_end(
            s,
            pos + enc_values(ts).len(),
            (depth + net_depth(ts)) as nat,
        ),
    decreases ts.len(),
{
    if ts.len() > 0 {
        let v = ts[0];
        let rest = ts.subrange(1, ts.len() as int);
        let l0 = enc_value(v).len() as int;
        let lr = enc_values(rest).len() as int;
        lemma_enc_value_len(v);
        assert(enc_values(ts) == enc_value(v) + enc_values(rest));
        assert(enc_values(ts).len() == l0 + lr);
        assert forall|j: int| 0 <= j < l0 implies #[trigger] s.subrange(pos, pos + l0)[j]
            == enc_value(v)[j] by {
            assert(s.subrange(pos, pos + l0)[j] == s[pos + j]);
            assert(s.subrange(pos, pos + l0 + lr)[j] == s[pos + j]);
            assert(enc_values(ts)[j] == enc_value(v)[j]);
        }
        assert(s.subrange(pos, pos + l0) =~= enc_value(v));
        assert forall|j: int| 0 <= j < lr implies #[trigger] s.subrange(pos + l0, pos + l0 + lr)[j]
            == enc_values(rest)[j] by {
            assert(s.subrange(pos + l0, pos + l0 + lr)[j] == s[pos + l0 + j]);
            assert(s.subrange(pos, pos + l0 + lr)[l0 + j] == s[pos + l0 + j]);
            assert(enc_values(ts)[l0 + j] == enc_values(rest)[j]);
        }
        assert(s.subrange(pos + l0, pos + l0 + lr) =~= enc_values(rest));
        lemma_token_enc(s, pos, v);
        assert(ts =~= seq![v] + rest);
        lemma_net_depth_cons(v, rest);
        // Shift the per-End hypothesis from ts to rest.
        assert forall|i: int|
            0 <= i < rest.len() && rest[i] is End implies (depth + depth_delta(v)) + net_depth(
            #[trigger] rest.subrange(0, i),
        ) >= 1 by {
            assert(ts.subrange(0, i + 1) =~= seq![v] + rest.subrange(0, i));
            lemma_net_depth_cons(v, rest.subrange(0, i));
            assert(ts[i + 1] is End);
        }
        if v is End {
            assert(ts.subrange(0, 0) =~= Seq::<Value>::empty());
            assert(depth >= 1);
            lemma_skip_tokens(s, pos + l0, rest, (depth - 1) as nat);
        } else if v is Begin {
            lemma_skip_tokens(s, pos + l0, rest, (depth + 1) as nat);
        } else {
            lemma_skip_tokens(s, pos + l0, rest, depth);
        }
    } else {
        assert(pos + enc_values(ts).len() == pos);
    }
}

/// Skip-to-end over a balanced body followed by `END`: the body and the
/// terminator are consumed, whatever follows. This is the forward
/// compatibility core: unknown trailing fields are discarded exactly.
pub proof fn lemma_skip_balanced(s: Seq<u8>, pos: int, ts: Seq<Value>)
    requires
        0 <= pos,
        pos + enc_values(ts).len() + 1 <= s.len(),
        s.subrange(pos, pos + enc_values(ts).len() + 1) == enc_values(ts) + seq![TAG_END],
        balanced(ts),
    ensures
        skip_end(s, pos, 0) == Ok::<int, Error>(pos + enc_values(ts).len() + 1),
{
    let l = enc_values(ts).len() as int;
    assert(s.subrange(pos, pos + l) =~= enc_values(ts)) by {
        assert(forall|j: int|
            0 <= j < l ==> s.subrange(pos, pos + l + 1)[j] == #[trigger] s[pos + j]);
    }
    lemma_skip_tokens(s, pos, ts, 0);
    assert(s[pos + l] == (enc_values(ts) + seq![TAG_END])[l]);
    assert(s.subrange(pos + l, pos + l + 1) =~= enc_value(Value::End)) by {
        lemma_enc_value_len(Value::End);
        lemma_le_bytes_len(0, 0);
    }
    lemma_token_enc(s, pos + l, Value::End);
}

/// The structural markers encode to their bare tag byte.
pub proof fn lemma_marker_bytes()
    ensures
        enc_value(Value::Begin) == seq![TAG_BEGIN],
        enc_value(Value::End) == seq![TAG_END],
{
    lemma_le_bytes_len(0, 0);
    assert(enc_value(Value::Begin) =~= seq![TAG_BEGIN]);
    assert(enc_value(Value::End) =~= seq![TAG_END]);
}

/// A slice of a matched region matches the same slice of the pattern.
pub proof fn lemma_subrange_of_eq(s: Seq<u8>, pos: int, t: Seq<u8>, a: int, b: int)
    requires
        0 <= pos,
        pos + t.len() <= s.len(),
        s.subrange(pos, pos + t.len()) == t,
        0 <= a <= b <= t.len(),
    ensures
        s.subrange(pos + a, pos + b) == t.subrange(a, b),
{
    assert forall|j: int| 0 <= j < b - a implies #[trigger] s.subrange(pos + a, pos + b)[j]
        == t.subrange(a, b)[j] by {
        assert(s.subrange(pos + a, pos + b)[j] == s[pos + a + j]);
        assert(s.subrange(pos, pos + t.len())[a + j] == s[pos + a + j]);
    }
    assert(s.subrange(pos + a, pos + b) =~= t.subrange(a, b));
}

/// A demanding read at an offset into a suffix agrees with the same read on
/// the whole stream: what a decoder sees of its body does not depend on
/// where the body stands.
pub proof fn lemma_expect_shift(s: Seq<u8>, p0: int, q: int, t: u8)
    requires
        0 <= p0 <= s.len(),
        0 <= q,
    ensures
        match expect_at(s, p0 + q, t) {
            Ok(xp) => expect_at(s.subrange(p0, s.len() as int), q, t) == Ok::<(nat, int), Error>(
                (xp.0, xp.1 - p0),
            ),
            Err(e) => expect_at(s.subrange(p0, s.len() as int), q, t) == Err::<
                (nat, int),
                Error,
            >(e),
        },
{
    let sub = s.subrange(p0, s.len() as int);
    let w = payload_width(t);
    if p0 + q < s.len() && s[p0 + q] == t && p0 + q + 1 + w <= s.len() {
        assert(s.subrange(p0 + q + 1, p0 + q + 1 + w) =~= sub.subrange(q + 1, q + 1 + w));
    }
}

/// Skip-to-end, when it succeeds, always moves forward and stays inside the
/// stream.
pub proof fn lemma_skip_advances(s: Seq<u8>, pos: int, depth: nat)
    ensures
        skip_end(s, pos, depth) matches Ok(p) ==> pos < p <= s.len(),
    decreases s.len() - pos,
{
    match token_result(s, pos) {
        Err(_) => {},
        Ok((v, p2)) => {
            match v {
                Value::End => {
                    if depth > 0 {
                        lemma_skip_advances(s, p2, (depth - 1) as nat);
                    }
                },
                Value::Begin => {
                    lemma_skip_advances(s, p2, depth + 1);
                },
                _ => {
                    lemma_skip_advances(s, p2, depth);
                },
            }
        },
    }
}

pub proof fn lemma_enc_values_concat(a: Seq<Value>, b: Seq<Value>)
    ensures
        enc_values(a + b) == enc_values(a) + enc_values(b),
    decreases a.len(),
{
    if a.len() == 0 {
        assert(a + b =~= b);
        assert(enc_values(a) + enc_values(b) =~= enc_values(b));
    } else {
        let rest = a.subrange(1, a.len() as int);
        assert((a + b).subrange(1, (a + b).len() as int) =~= rest + b);
        assert((a + b)[0] == a[0]);
        lemma_enc_values_concat(rest, b);
        assert(enc_value(a[0]) + (enc_values(rest) + enc_values(b)) =~= (enc_value(a[0])
            + enc_values(rest)) + enc_values(b));
    }
}

} // verus!
