//! The object envelope: `BEGIN`, a `u16` schema version, the body written by
//! the value's own serialize, `END`. On read, the version is handed to the
//! value's deserialize, and skip-to-end then discards whatever trailing
//! fields the decoder did not consume — the forward compatibility mechanism.
use crate::tag::{
    balanced, enc_value, enc_values, expect_at, lemma_expect_enc, lemma_marker_bytes,
    lemma_skip_advances, lemma_skip_balanced, lemma_subrange_of_eq, skip_end, Value, TAG_BEGIN,
    TAG_END, TAG_U16,
};
use crate::{
    balanced_items, item_tokens, lemma_balanced_items, refs_resolved, render, BodyItem,
    Deserialize, Error, Read, Serialize, Write,
};
use vstd::prelude::*;

verus! {

/// The bytes of one object envelope around a body.
pub open spec fn envelope_bytes(version: u16, body: Seq<u8>) -> Seq<u8> {
    seq![TAG_BEGIN] + enc_value(Value::U16(version)) + body + seq![TAG_END]
}

/// What reading one object envelope at `pos` yields: the decoded value and
/// the position after the matching `END`, or nothing where the reader errors.
pub open spec fn obj_read<T: Deserialize>(s: Seq<u8>, pos: int, bound: int) -> Option<(T, int)> {
    match expect_at(s, pos, TAG_BEGIN) {
        Err(_) => None,
        Ok(bp) => match expect_at(s, bp.1, TAG_U16) {
            Err(_) => None,
            Ok(vp) => match T::decode(vp.0 as u16, s.subrange(vp.1, s.len() as int), bound) {
                None => None,
                Some((x, n)) => if 0 <= n <= s.len() - vp.1 {
                    match skip_end(s, vp.1 + n, 0) {
                        Ok(p) => Some((x, p)),
                        Err(_) => None,
                    }
                } else {
                    None
                },
            },
        },
    }
}

/// Writes one object envelope: `BEGIN`, the type's version, the body, `END`.
/// Succeeds whenever the body's references are all assigned; on success it
/// appends exactly the envelope of the body's rendering.
pub fn write_obj<S: Serialize, W: Write>(w: &mut W, x: &S) -> (r: Result<(), Error>)
    ensures
        final(w).refs() == old(w).refs(),
        final(w).idstate() == old(w).idstate(),
        r is Ok ==> final(w).stream() == old(w).stream() + envelope_bytes(
            S::spec_version(),
            render(x.body(), old(w).refs()),
        ),
        refs_resolved(x.body(), old(w).refs()) ==> r is Ok,
{
    w.begin()?;
    let v = S::version();
    w.u16(v)?;
    let r = x.serialize(w);
    proof {
        lemma_marker_bytes();
    }
    match r {
        Ok(u) => {
            w.end()?;
            proof {
                assert(w.stream() =~= old(w).stream() + envelope_bytes(
                    S::spec_version(),
                    render(x.body(), old(w).refs()),
                ));
            }
            Ok(())
        },
        Err(e) => Err(e),
    }
}

/// Reads one object envelope: demands `BEGIN`, reads the version, hands it to
/// the type's deserialize, then skips to the matching `END`.
pub fn read_obj<T: Deserialize, R: Read>(r: &mut R) -> (res: Result<T, Error>)
    requires
        0 <= old(r).at() <= old(r).data().len(),
    ensures
        final(r).data() == old(r).data(),
        final(r).bound() == old(r).bound(),
        0 <= final(r).at() <= final(r).data().len(),
        match obj_read::<T>(old(r).data(), old(r).at(), old(r).bound()) {
            Some((x, p)) => res == Ok::<T, Error>(x) && final(r).at() == p,
            None => res is Err,
        },
{
    r.begin()?;
    let version = r.u16()?;
    let x = T::deserialize(r, version)?;
    r.end()?;
    Ok(x)
}

/// A decoded envelope always moves the cursor forward and stays inside the
/// stream.
pub proof fn lemma_obj_read_advances<T: Deserialize>(s: Seq<u8>, pos: int, bound: int)
    ensures
        obj_read::<T>(s, pos, bound) matches Some((x, p)) ==> pos < p <= s.len(),
{
    match expect_at(s, pos, TAG_BEGIN) {
        Err(_) => {},
        Ok(bp) => match expect_at(s, bp.1, TAG_U16) {
            Err(_) => {},
            Ok(vp) => {
                match T::decode(vp.0 as u16, s.subrange(vp.1, s.len() as int), bound) {
                    None => {},
                    Some((x, n)) => {
                        if 0 <= n <= s.len() - vp.1 {
                            lemma_skip_advances(s, vp.1 + n, 0);
                        }
                    },
                }
            },
        },
    }
}

/// An envelope whose body splits into a decoded prefix and balanced trailing
/// fields reads back the decoded value and consumes the whole envelope.
pub proof fn lemma_obj_read_ok<T: Deserialize>(
    s: Seq<u8>,
    pos: int,
    bound: int,
    version: u16,
    b: Seq<u8>,
    ets: Seq<Value>,
    x: T,
)
    requires
        0 <= pos,
        pos + envelope_bytes(version, b + enc_values(ets)).len() <= s.len(),
        s.subrange(pos, pos + envelope_bytes(version, b + enc_values(ets)).len())
            == envelope_bytes(version, b + enc_values(ets)),
        balanced(ets),
        T::decode(version, s.subrange(pos + 4, s.len() as int), bound) == Some((x, b.len() as int)),
    ensures
        obj_read::<T>(s, pos, bound) == Some(
            (x, pos + envelope_bytes(version, b + enc_values(ets)).len()),
        ),
{
    let env = envelope_bytes(version, b + enc_values(ets));
    let lv = enc_value(Value::U16(version)).len() as int;
    crate::tag::lemma_enc_value_len(Value::U16(version));
    assert(lv == 3);
    lemma_marker_bytes();
    let lb = b.len() as int;
    let le = enc_values(ets).len() as int;
    assert(env.len() == 1 + 3 + lb + le + 1);
    // BEGIN at pos.
    lemma_subrange_of_eq(s, pos, env, 0, 1);
    assert(env.subrange(0, 1) =~= enc_value(Value::Begin));
    lemma_expect_enc(s, pos, Value::Begin);
    // The version token at pos + 1.
    lemma_subrange_of_eq(s, pos, env, 1, 4);
    assert(env.subrange(1, 4) =~= enc_value(Value::U16(version)));
    lemma_expect_enc(s, pos + 1, Value::U16(version));
    assert((version as nat) as u16 == version);
    // The decoded prefix ends at pos + 4 + lb; trailing fields and the
    // terminator stand beyond it.
    lemma_subrange_of_eq(s, pos, env, 4 + lb, 4 + lb + le + 1);
    assert(env.subrange(4 + lb, 4 + lb + le + 1) =~= enc_values(ets) + seq![TAG_END]);
    lemma_skip_balanced(s, pos + 4 + lb, ets);
    assert(skip_end(s, pos + 4 + lb, 0) == Ok::<int, Error>(pos + env.len()));
}

/// Round trip of objects: an envelope holding a value's own rendering, read
/// at the version it was written with, yields that value back, provided the
/// type's decode inverts its body — the symmetry a user codec must have.
pub proof fn lemma_obj_round_trip<T: Serialize + Deserialize>(
    x: T,
    ids: Map<int, u32>,
    s: Seq<u8>,
    pos: int,
    bound: int,
)
    requires
        0 <= pos,
        pos + envelope_bytes(T::spec_version(), render(x.body(), ids)).len() <= s.len(),
        s.subrange(pos, pos + envelope_bytes(T::spec_version(), render(x.body(), ids)).len())
            == envelope_bytes(T::spec_version(), render(x.body(), ids)),
        forall|rest: Seq<u8>|
            T::decode(T::spec_version(), #[trigger] (render(x.body(), ids) + rest), bound)
                == Some((x, render(x.body(), ids).len() as int)),
    ensures
        obj_read::<T>(s, pos, bound) == Some(
            (x, pos + envelope_bytes(T::spec_version(), render(x.body(), ids)).len()),
        ),
{
    let b = render(x.body(), ids);
    let none: Seq<Value> = Seq::empty();
    assert(enc_values(none) =~= Seq::<u8>::empty());
    assert(b + enc_values(none) =~= b);
    assert(balanced(none));
    let rest = s.subrange(pos + 4 + b.len() as int, s.len() as int);
    assert(s.subrange(pos + 4, s.len() as int) =~= b + rest) by {
        let env = envelope_bytes(T::spec_version(), b);
        crate::tag::lemma_enc_value_len(Value::U16(T::spec_version()));
        lemma_subrange_of_eq(s, pos, env, 4, 4 + b.len() as int);
        assert(env.subrange(4, 4 + b.len() as int) =~= b);
    }
    assert(T::decode(T::spec_version(), s.subrange(pos + 4, s.len() as int), bound) == Some(
        (x, b.len() as int),
    ));
    lemma_obj_read_ok(s, pos, bound, T::spec_version(), b, none, x);
    assert(envelope_bytes(T::spec_version(), b + enc_values(none)) == envelope_bytes(
        T::spec_version(),
        b,
    ));
}

/// Forward compatibility: a stream written at a newer version with extra
/// trailing fields, read by a decoder that understands only a prefix of the
/// body, still yields the decoded value; skip-to-end discards the remainder.
pub proof fn lemma_obj_forward_compat<T: Deserialize>(
    s: Seq<u8>,
    pos: int,
    bound: int,
    version: u16,
    b: Seq<u8>,
    ets: Seq<Value>,
    x: T,
)
    requires
        0 <= pos,
        pos + envelope_bytes(version, b + enc_values(ets)).len() <= s.len(),
        s.subrange(pos, pos + envelope_bytes(version, b + enc_values(ets)).len())
            == envelope_bytes(version, b + enc_values(ets)),
        balanced(ets),
        forall|rest: Seq<u8>|
            T::decode(version, #[trigger] (b + rest), bound) == Some((x, b.len() as int)),
    ensures
        obj_read::<T>(s, pos, bound) == Some(
            (x, pos + envelope_bytes(version, b + enc_values(ets)).len()),
        ),
{
    let body = b + enc_values(ets);
    let env = envelope_bytes(version, body);
    let rest = s.subrange(pos + 4 + b.len() as int, s.len() as int);
    assert(s.subrange(pos + 4, s.len() as int) =~= b + rest) by {
        crate::tag::lemma_enc_value_len(Value::U16(version));
        lemma_subrange_of_eq(s, pos, env, 4, 4 + b.len() as int);
        assert(env.subrange(4, 4 + b.len() as int) =~= b);
    }
    lemma_obj_read_ok(s, pos, bound, version, b, ets, x);
}

/// Forward compatibility, stated over the body model: unknown trailing
/// fields described as body items render to a balanced token region whatever
/// ids their references resolve to, so a decoder that understands only the
/// prefix still succeeds and skip-to-end discards the rest.
pub proof fn lemma_obj_forward_compat_items<T: Deserialize>(
    s: Seq<u8>,
    pos: int,
    bound: int,
    version: u16,
    b: Seq<u8>,
    extra: Seq<BodyItem>,
    ids: Map<int, u32>,
    x: T,
)
    requires
        0 <= pos,
        pos + envelope_bytes(version, b + render(extra, ids)).len() <= s.len(),
        s.subrange(pos, pos + envelope_bytes(version, b + render(extra, ids)).len())
            == envelope_bytes(version, b + render(extra, ids)),
        balanced_items(extra),
        forall|rest: Seq<u8>|
            T::decode(version, #[trigger] (b + rest), bound) == Some((x, b.len() as int)),
    ensures
        obj_read::<T>(s, pos, bound) == Some(
            (x, pos + envelope_bytes(version, b + render(extra, ids)).len()),
        ),
{
    lemma_balanced_items(extra, ids);
    lemma_obj_forward_compat::<T>(s, pos, bound, version, b, item_tokens(extra, ids), x);
}

/// Backward compatibility: a stream written at an older version, read by a
/// decoder that also understands that version, yields the value that decoder
/// builds for it — older fields from the wire, newer ones as its defaults.
pub proof fn lemma_obj_backward_compat<T: Deserialize>(
    s: Seq<u8>,
    pos: int,
    bound: int,
    version: u16,
    b: Seq<u8>,
    x: T,
)
    requires
        0 <= pos,
        pos + envelope_bytes(version, b).len() <= s.len(),
        s.subrange(pos, pos + envelope_bytes(version, b).len()) == envelope_bytes(version, b),
        forall|rest: Seq<u8>|
            T::decode(version, #[trigger] (b + rest), bound) == Some((x, b.len() as int)),
    ensures
        obj_read::<T>(s, pos, bound) == Some((x, pos + envelope_bytes(version, b).len())),
{
    let none: Seq<Value> = Seq::empty();
    assert(enc_values(none) =~= Seq::<u8>::empty());
    assert(b + enc_values(none) =~= b);
    assert(balanced(none));
    lemma_obj_forward_compat(s, pos, bound, version, b, none, x);
    assert(envelope_bytes(version, b + enc_values(none)) == envelope_bytes(version, b));
}

} // verus!
