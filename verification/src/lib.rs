//! A binary object-serialization core. Values and object graphs are encoded
//! to a self-describing, versioned byte stream: every primitive carries a
//! one-byte kind tag, every object is framed by a versioned envelope whose
//! trailing unknown fields a reader can skip, and a directed acyclic graph of
//! shared nodes is written exactly once per node under a dense numeric id.
//!
//! The wire format is little-endian throughout.
use vstd::prelude::*;

pub mod block;
pub mod chain;
pub mod dynobj;
pub mod envelope;
pub mod pair;
pub mod read;
pub mod primitive;
pub mod tag;
pub mod write;

use crate::tag::{
    balanced, depth_delta, enc_value, enc_values, expect_at, net_depth, Value, TAG_U128, TAG_U16,
    TAG_U32, TAG_U8,
};

pub use read::DeserializerRegistry;
pub use write::write_object;

verus! {

/// Errors reported by the codec layers.
#[derive(Clone, Copy, Debug, PartialEq, Eq, Structural)]
pub enum Error {
    /// The byte sink or source ran out: a short read or a rejected write.
    IoError,
    /// A tag byte did not match the expected kind, or was not a legal tag.
    TagMismatch,
    /// A top-level frame named a type key that no deserializer was registered for.
    DeserializerNotFound,
    /// A reference id was not present in the id table, or a stream held no object.
    ObjNotFound,
    /// The operation is a contract slot this codec does not implement.
    NotImplemented,
}

/// Tagged output of single values. `stream` is every byte written so far;
/// `refs` is the writer's identity table, empty where object references are
/// not supported.
pub trait WritePrimitive {
    spec fn stream(&self) -> Seq<u8>;

    spec fn refs(&self) -> Map<int, u32>;

    /// The identity-table state behind `refs`: the id slots, the next id and
    /// the emission order. Writing values never touches it; only emitting a
    /// whole frame does. Constant where references are not supported.
    spec fn idstate(&self) -> (Seq<Option<u32>>, u32, Seq<int>);

    fn u8(&mut self, x: u8) -> (r: Result<(), Error>)
        ensures
            r is Ok,
            final(self).stream() == old(self).stream() + enc_value(Value::U8(x)),
            final(self).refs() == old(self).refs(),
            final(self).idstate() == old(self).idstate(),
    ;

    fn u16(&mut self, x: u16) -> (r: Result<(), Error>)
        ensures
            r is Ok,
            final(self).stream() == old(self).stream() + enc_value(Value::U16(x)),
            final(self).refs() == old(self).refs(),
            final(self).idstate() == old(self).idstate(),
    ;

    fn u32(&mut self, x: u32) -> (r: Result<(), Error>)
        ensures
            r is Ok,
            final(self).stream() == old(self).stream() + enc_value(Value::U32(x)),
            final(self).refs() == old(self).refs(),
            final(self).idstate() == old(self).idstate(),
    ;

    fn u128(&mut self, x: u128) -> (r: Result<(), Error>)
        ensures
            r is Ok,
            final(self).stream() == old(self).stream() + enc_value(Value::U128(x)),
            final(self).refs() == old(self).refs(),
            final(self).idstate() == old(self).idstate(),
    ;

    /// The string slot of the wire format: a contract slot this codec leaves
    /// unimplemented.
    fn str(&mut self, x: &str) -> (r: Result<(), Error>)
        ensures
            r == Err::<(), Error>(Error::NotImplemented),
            final(self).stream() == old(self).stream(),
            final(self).refs() == old(self).refs(),
            final(self).idstate() == old(self).idstate(),
    ;
}

/// Tagged input of single values. `data` is the whole stream, `at` the read
/// position, and `bound` the number of object ids resolvable so far (zero
/// where object references are not supported).
pub trait ReadPrimitive {
    spec fn data(&self) -> Seq<u8>;

    spec fn at(&self) -> int;

    spec fn bound(&self) -> int;

    fn u8(&mut self) -> (r: Result<u8, Error>)
        requires
            0 <= old(self).at() <= old(self).data().len(),
        ensures
            final(self).data() == old(self).data(),
            final(self).bound() == old(self).bound(),
            0 <= final(self).at() <= final(self).data().len(),
            match expect_at(old(self).data(), old(self).at(), TAG_U8) {
                Ok((x, p)) => r == Ok::<u8, Error>(x as u8) && final(self).at() == p,
                Err(e) => r == Err::<u8, Error>(e) && final(self).at() == old(self).at(),
            },
    ;

    fn u16(&mut self) -> (r: Result<u16, Error>)
        requires
            0 <= old(self).at() <= old(self).data().len(),
        ensures
            final(self).data() == old(self).data(),
            final(self).bound() == old(self).bound(),
            0 <= final(self).at() <= final(self).data().len(),
            match expect_at(old(self).data(), old(self).at(), TAG_U16) {
                Ok((x, p)) => r == Ok::<u16, Error>(x as u16) && final(self).at() == p,
                Err(e) => r == Err::<u16, Error>(e) && final(self).at() == old(self).at(),
            },
    ;

    fn u32(&mut self) -> (r: Result<u32, Error>)
        requires
            0 <= old(self).at() <= old(self).data().len(),
        ensures
            final(self).data() == old(self).data(),
            final(self).bound() == old(self).bound(),
            0 <= final(self).at() <= final(self).data().len(),
            match expect_at(old(self).data(), old(self).at(), TAG_U32) {
                Ok((x, p)) => r == Ok::<u32, Error>(x as u32) && final(self).at() == p,
                Err(e) => r == Err::<u32, Error>(e) && final(self).at() == old(self).at(),
            },
    ;

    fn u128(&mut self) -> (r: Result<u128, Error>)
        requires
            0 <= old(self).at() <= old(self).data().len(),
        ensures
            final(self).data() == old(self).data(),
            final(self).bound() == old(self).bound(),
            0 <= final(self).at() <= final(self).data().len(),
            match expect_at(old(self).data(), old(self).at(), TAG_U128) {
                Ok((x, p)) => r == Ok::<u128, Error>(x as u128) && final(self).at() == p,
                Err(e) => r == Err::<u128, Error>(e) && final(self).at() == old(self).at(),
            },
    ;

    /// The string slot of the wire format: a contract slot this codec leaves
    /// unimplemented.
    fn str(&mut self) -> (r: Result<String, Error>)
        ensures
            r is Err && (r matches Err(e) ==> e == Error::NotImplemented),
            final(self).data() == old(self).data(),
            final(self).bound() == old(self).bound(),
            final(self).at() == old(self).at(),
    ;
}

/// Output of whole values: tagged primitives plus object references. A
/// reference is written as the `u32` id its target holds in `refs`.
pub trait Write: crate::tag::TagWrite {
    fn rc(&mut self, target: usize) -> (r: Result<(), Error>)
        ensures
            final(self).refs() == old(self).refs(),
            final(self).idstate() == old(self).idstate(),
            r is Ok <==> old(self).refs().contains_key(target as int),
            r is Ok ==> final(self).stream() == old(self).stream() + enc_value(
                Value::U32(old(self).refs()[target as int]),
            ),
            r is Err ==> final(self).stream() == old(self).stream(),
    ;
}

/// Input of whole values: tagged primitives plus object references. A
/// reference is a `u32` id and resolves only if it is below `bound`, that is,
/// only if its frame was decoded earlier in the same stream.
pub trait Read: crate::tag::TagRead {
    fn rc(&mut self) -> (r: Result<usize, Error>)
        requires
            0 <= old(self).at() <= old(self).data().len(),
        ensures
            final(self).data() == old(self).data(),
            final(self).bound() == old(self).bound(),
            0 <= final(self).at() <= final(self).data().len(),
            old(self).at() <= final(self).at(),
            r is Ok <==> (expect_at(old(self).data(), old(self).at(), TAG_U32) matches Ok(xp)
                && xp.0 < old(self).bound()),
            r matches Ok(i) ==> (expect_at(old(self).data(), old(self).at(), TAG_U32) matches Ok(
                xp,
            ) && i as nat == xp.0 && final(self).at() == xp.1),
    ;
}

/// One item of an object body: a token written literally, or a reference to
/// the dependency with the given store index, which reaches the wire as the
/// `u32` id assigned to that dependency.
pub enum BodyItem {
    Tok(Value),
    Ref(int),
}

/// The token an item renders to under an id assignment.
pub open spec fn item_token(it: BodyItem, ids: Map<int, u32>) -> Value {
    match it {
        BodyItem::Tok(v) => v,
        BodyItem::Ref(d) => Value::U32(ids[d]),
    }
}

/// The token sequence a body renders to under an id assignment.
pub open spec fn item_tokens(items: Seq<BodyItem>, ids: Map<int, u32>) -> Seq<Value> {
    items.map_values(|it: BodyItem| item_token(it, ids))
}

/// The bytes a body renders to under an id assignment.
pub open spec fn render(items: Seq<BodyItem>, ids: Map<int, u32>) -> Seq<u8> {
    enc_values(item_tokens(items, ids))
}

/// How one body item changes the bracket depth.
pub open spec fn item_delta(it: BodyItem) -> int {
    match it {
        BodyItem::Tok(v) => depth_delta(v),
        BodyItem::Ref(_) => 0,
    }
}

/// The net bracket depth of a body.
pub open spec fn net_items(items: Seq<BodyItem>) -> int
    decreases items.len(),
{
    if items.len() == 0 {
        0
    } else {
        item_delta(items[0]) + net_items(items.subrange(1, items.len() as int))
    }
}

/// A body whose brackets pair up, so that it can stand inside an envelope.
pub open spec fn balanced_items(items: Seq<BodyItem>) -> bool {
    net_items(items) == 0 && (forall|i: int|
        0 <= i < items.len() && items[i] == BodyItem::Tok(Value::End) ==> net_items(
            #[trigger] items.subrange(0, i),
        ) >= 1)
}

/// Every reference in the body has an assigned id.
pub open spec fn refs_resolved(items: Seq<BodyItem>, ids: Map<int, u32>) -> bool {
    forall|j: int|
        0 <= j < items.len() ==> (#[trigger] items[j] matches BodyItem::Ref(d)
            ==> ids.contains_key(d))
}

pub proof fn lemma_net_items_tokens(items: Seq<BodyItem>, ids: Map<int, u32>)
    ensures
        net_depth(item_tokens(items, ids)) == net_items(items),
    decreases items.len(),
{
    if items.len() > 0 {
        let rest = items.subrange(1, items.len() as int);
        assert(item_tokens(items, ids).subrange(1, items.len() as int) =~= item_tokens(rest, ids));
        lemma_net_items_tokens(rest, ids);
    }
}

/// A balanced body renders to a balanced token sequence, whatever ids its
/// references resolve to.
pub proof fn lemma_balanced_items(items: Seq<BodyItem>, ids: Map<int, u32>)
    requires
        balanced_items(items),
    ensures
        balanced(item_tokens(items, ids)),
{
    lemma_net_items_tokens(items, ids);
    let ts = item_tokens(items, ids);
    assert forall|i: int| 0 <= i < ts.len() && ts[i] is End implies net_depth(
        #[trigger] ts.subrange(0, i),
    ) >= 1 by {
        assert(items[i] == BodyItem::Tok(Value::End));
        assert(ts.subrange(0, i) =~= item_tokens(items.subrange(0, i), ids));
        lemma_net_items_tokens(items.subrange(0, i), ids);
    }
}

/// A user value that can describe its body to a writer. `body` is the
/// mathematical description; `serialize` must write exactly its rendering.
pub trait Serialize {
    /// The schema version, as the contracts speak of it. The default stands
    /// for implementations that carry no contract of their own.
    open spec fn spec_version() -> u16 {
        0
    }

    /// The body as a mathematical value. The default stands for
    /// implementations that carry no contract of their own.
    open spec fn body(&self) -> Seq<BodyItem> {
        Seq::empty()
    }

    /// The schema version this type writes.
    fn version() -> (v: u16)
        ensures
            v == Self::spec_version(),
    ;

    fn serialize<W: Write>(&self, w: &mut W) -> (r: Result<(), Error>)
        ensures
            final(w).refs() == old(w).refs(),
            final(w).idstate() == old(w).idstate(),
            r is Ok ==> final(w).stream() == old(w).stream() + render(
                self.body(),
                old(w).refs(),
            ),
            refs_resolved(self.body(), old(w).refs()) ==> r is Ok,
    ;
}

/// A user value that can be rebuilt from a reader. `decode` says, for every
/// version, stream suffix and id bound, whether decoding succeeds, what value
/// it builds and how many bytes it consumes; `deserialize` must follow it.
pub trait Deserialize: Sized {
    /// What decoding builds, and how many bytes it consumes, for every
    /// version, stream suffix and id bound. The default stands for
    /// implementations that carry no contract of their own.
    open spec fn decode(version: u16, s: Seq<u8>, bound: int) -> Option<(Self, int)> {
        None
    }

    fn deserialize<R: Read>(r: &mut R, version: u16) -> (res: Result<Self, Error>)
        requires
            0 <= old(r).at() <= old(r).data().len(),
        ensures
            final(r).data() == old(r).data(),
            final(r).bound() == old(r).bound(),
            0 <= final(r).at() <= final(r).data().len(),
            old(r).at() <= final(r).at(),
            match Self::decode(
                version,
                old(r).data().subrange(old(r).at(), old(r).data().len() as int),
                old(r).bound(),
            ) {
                Some((x, n)) => res == Ok::<Self, Error>(x) && final(r).at() == old(r).at() + n,
                None => res is Err,
            },
    ;
}

/// The stable 128-bit key that names a user type on the wire.
pub trait TypeKey {
    /// The key, as the contracts speak of it. The default stands for
    /// implementations that carry no contract of their own.
    open spec fn spec_type_key() -> u128 {
        0
    }

    fn type_key() -> (k: u128)
        ensures
            k == Self::spec_type_key(),
    ;
}

/// A node of an object graph held in a store: its dependencies are store
/// indices of earlier nodes, and its body references only its dependencies.
pub trait SerializationNode: Serialize + TypeKey {
    /// The dependencies, as the contracts speak of them. The default stands
    /// for implementations that carry no contract of their own.
    open spec fn deps(&self) -> Seq<int> {
        Seq::empty()
    }

    fn get_dependencies(&self) -> (d: Vec<usize>)
        ensures
            d@.map_values(|u: usize| u as int) == self.deps(),
    ;
}

} // verus!
