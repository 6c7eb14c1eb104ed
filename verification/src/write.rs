//! The reference/DAG writer. A graph lives in a store (`Vec<N>`) whose nodes
//! name their dependencies by store index, each strictly below the node's own
//! index — the shape of a directed acyclic graph built bottom up. The writer
//! walks the dependencies first, emits every reached node exactly once as a
//! top-level frame, and assigns dense ids in emission order, so that every
//! reference inside a frame names an earlier frame.
use crate::block::emit;
use crate::envelope::{envelope_bytes, write_obj};
use crate::tag::{
    enc_value, lemma_marker_bytes, TagWrite, Value, TAG_BEGIN, TAG_END, TAG_U128, TAG_U16, TAG_U32,
    TAG_U8,
};
use crate::{
    item_token, refs_resolved, render, BodyItem, Error, SerializationNode, Write, WritePrimitive,
};
use vstd::prelude::*;
use vstd::seq_lib::*;
use vstd::set_lib::{lemma_int_range, lemma_len_subset, set_int_range};

verus! {

/// A store is well formed when every dependency points strictly below its
/// node — references only ever reach earlier entries, so the graph is
/// acyclic — and every reference a body writes is a declared dependency,
/// which is the user's duty when describing a node.
pub open spec fn wf_store<N: SerializationNode>(store: Seq<N>) -> bool {
    &&& (forall|i: int, k: int|
        0 <= i < store.len() && 0 <= k < store[i].deps().len()
            ==> 0 <= #[trigger] store[i].deps()[k] < i)
    &&& (forall|i: int, j: int|
        0 <= i < store.len() && 0 <= j < store[i].body().len()
            ==> (#[trigger] store[i].body()[j] matches BodyItem::Ref(t)
                ==> store[i].deps().contains(t)))
}

/// The set of store indices an emission starting at `i` must cover: the node
/// itself and everything its dependencies reach.
pub open spec fn reach_set<N: SerializationNode>(store: Seq<N>, i: int) -> Set<int>
    decreases i + 1, 0int,
    when 0 <= i < store.len() && wf_store(store)
{
    set![i].union(reach_many(store, store[i].deps(), i))
}

/// The union of what a list of dependencies, each below `b`, reaches.
pub open spec fn reach_many<N: SerializationNode>(store: Seq<N>, ds: Seq<int>, b: int) -> Set<int>
    decreases b, ds.len(),
    when (forall|k: int| 0 <= k < ds.len() ==> 0 <= #[trigger] ds[k] < b) && b <= store.len()
        && wf_store(store)
{
    if ds.len() == 0 {
        Set::empty()
    } else {
        reach_set(store, ds[0]).union(reach_many(store, ds.subrange(1, ds.len() as int), b))
    }
}

/// Every assigned node's dependencies are assigned, under smaller ids.
pub open spec fn deps_assigned<N: SerializationNode>(store: Seq<N>, m: Map<int, u32>) -> bool {
    forall|x: int, k: int|
        m.contains_key(x) && 0 <= x < store.len() && 0 <= k < store[x].deps().len() ==> {
            let d = #[trigger] store[x].deps()[k];
            m.contains_key(d) && m[d] < m[x]
        }
}

/// `m2` keeps every assignment of `m1`.
pub open spec fn map_extends(m2: Map<int, u32>, m1: Map<int, u32>) -> bool {
    forall|i: int| #[trigger] m1.contains_key(i) ==> m2.contains_key(i) && m2[i] == m1[i]
}

/// The bytes of one top-level frame: `BEGIN`, the dense id, the type key, the
/// object envelope, `END`.
pub open spec fn frame_enc(id: u32, key: u128, env: Seq<u8>) -> Seq<u8> {
    seq![TAG_BEGIN] + enc_value(Value::U32(id)) + enc_value(Value::U128(key)) + env + seq![TAG_END]
}

/// The bytes of the frame emitted `j`-th: its id is `j`, and its body is the
/// node's rendering under the id assignment `m`.
pub open spec fn frame_bytes<N: SerializationNode>(
    store: Seq<N>,
    order: Seq<int>,
    j: int,
    m: Map<int, u32>,
) -> Seq<u8> {
    frame_enc(
        j as u32,
        N::spec_type_key(),
        envelope_bytes(N::spec_version(), render(store[order[j]].body(), m)),
    )
}

/// The concatenated frames for emission positions `from` up to `to`.
pub open spec fn frames_bytes<N: SerializationNode>(
    store: Seq<N>,
    order: Seq<int>,
    from: int,
    to: int,
    m: Map<int, u32>,
) -> Seq<u8>
    decreases to - from,
{
    if from >= to {
        Seq::empty()
    } else {
        frame_bytes(store, order, from, m) + frames_bytes(store, order, from + 1, to, m)
    }
}

/// The writer-side identity table: for each store index, the dense id its
/// frame got when it was emitted, `None` while it has not been. `order` is
/// the emission order, kept for the contracts.
pub struct WritingContext {
    pub ids: Vec<Option<u32>>,
    pub count: u32,
    pub order: Ghost<Seq<int>>,
}

impl WritingContext {
    /// The assignment as a map from store index to id.
    pub open spec fn id_map(&self) -> Map<int, u32> {
        Map::new(
            |i: int| 0 <= i < self.ids@.len() && self.ids@[i] is Some,
            |i: int| self.ids@[i]->0,
        )
    }

    /// Ids count up from zero in emission order, and table and order agree.
    pub open spec fn wf(&self) -> bool {
        &&& self.count as int == self.order@.len()
        &&& (forall|j: int|
            0 <= j < self.order@.len() ==> 0 <= #[trigger] self.order@[j] < self.ids@.len())
        &&& (forall|j: int|
            0 <= j < self.order@.len() ==> self.ids@[#[trigger] self.order@[j]] == Some(j as u32))
        &&& (forall|i: int|
            0 <= i < self.ids@.len() && #[trigger] self.ids@[i] is Some ==> 0 <= (
            self.ids@[i]->0 as int) < self.order@.len() && self.order@[self.ids@[i]->0 as int]
                == i)
    }

    /// A fresh table for a store of `n` nodes.
    pub fn new(n: usize) -> (c: WritingContext)
        ensures
            c.wf(),
            c.ids@.len() == n,
            c.count == 0,
            c.order@ == Seq::<int>::empty(),
            c.id_map() == Map::<int, u32>::empty(),
    {
        let mut ids: Vec<Option<u32>> = Vec::new();
        let mut k: usize = 0;
        while k < n
            invariant
                k <= n,
                ids@.len() == k,
                forall|i: int| 0 <= i < k ==> ids@[i] is None,
            decreases n - k,
        {
            ids.push(None);
            k = k + 1;
        }
        let c = WritingContext { ids, count: 0, order: Ghost(Seq::empty()) };
        proof {
            assert(c.id_map() =~= Map::<int, u32>::empty());
        }
        c
    }

    /// The id of a store index, where one is assigned.
    pub fn lookup(&self, i: usize) -> (r: Option<u32>)
        ensures
            r is Some <==> self.id_map().contains_key(i as int),
            r matches Some(v) ==> self.id_map()[i as int] == v,
    {
        if i < self.ids.len() {
            self.ids[i]
        } else {
            None
        }
    }

    /// Assigns the next dense id to an index not yet assigned.
    pub fn assign(&mut self, i: usize)
        requires
            old(self).wf(),
            (i as int) < old(self).ids@.len(),
            !old(self).id_map().contains_key(i as int),
            old(self).ids@.len() <= 0xFFFFFFFF,
        ensures
            final(self).wf(),
            final(self).ids@.len() == old(self).ids@.len(),
            final(self).count == old(self).count + 1,
            final(self).order@ == old(self).order@.push(i as int),
            final(self).id_map() == old(self).id_map().insert(i as int, old(self).count),
    {
        proof {
            lemma_count_below(old(self), i as int);
        }
        let id = self.count;
        self.ids.set(i, Some(id));
        self.count = self.count + 1;
        self.order = Ghost(self.order@.push(i as int));
        proof {
            assert(self.id_map() =~= old(self).id_map().insert(i as int, old(self).count));
            assert forall|j: int| 0 <= j < self.order@.len() implies self.ids@[#[trigger] self.order@[j]]
                == Some(j as u32) by {
                if j < old(self).order@.len() {
                    assert(old(self).ids@[old(self).order@[j]] == Some(j as u32));
                }
            }
        }
    }
}

/// While some index is unassigned, fewer ids than store slots are out.
proof fn lemma_count_below(con: &WritingContext, i: int)
    requires
        con.wf(),
        0 <= i < con.ids@.len(),
        !(con.ids@[i] is Some),
    ensures
        (con.count as int) < con.ids@.len(),
{
    let order = con.order@;
    let n = con.ids@.len() as int;
    assert(order.no_duplicates()) by {
        assert forall|j1: int, j2: int|
            0 <= j1 < order.len() && 0 <= j2 < order.len() && j1 != j2 implies order[j1]
            != order[j2] by {
            if order[j1] == order[j2] {
                assert(con.ids@[order[j1]] == Some(j1 as u32));
                assert(con.ids@[order[j2]] == Some(j2 as u32));
            }
        }
    }
    order.unique_seq_to_set();
    lemma_int_range(0, n);
    let range = set_int_range(0, n).remove(i);
    assert(order.to_set().subset_of(range)) by {
        assert forall|x: int| order.to_set().contains(x) implies range.contains(x) by {
            assert(order.contains(x));
            let j = choose|j: int| 0 <= j < order.len() && order[j] == x;
            assert(con.ids@[x] is Some);
        }
    }
    lemma_len_subset(order.to_set(), range);
    assert(set_int_range(0, n).contains(i));
    assert(range.len() == n - 1);
}

/// The writer that drives a DAG emission: the byte sink and the identity
/// table together, so that a node's serialize can resolve references.
pub struct DagWriter {
    pub out: Vec<u8>,
    pub con: WritingContext,
}

impl DagWriter {
    /// A fresh writer for a store of `n` nodes.
    pub fn new(n: usize) -> (w: DagWriter)
        ensures
            w.con.wf(),
            w.con.ids@.len() == n,
            w.con.count == 0,
            w.con.order@ == Seq::<int>::empty(),
            w.con.id_map() == Map::<int, u32>::empty(),
            w.out@ == Seq::<u8>::empty(),
    {
        let out: Vec<u8> = Vec::new();
        DagWriter { out, con: WritingContext::new(n) }
    }

    /// Hands the written bytes back.
    pub fn into_bytes(self) -> (out: Vec<u8>)
        ensures
            out@ == self.out@,
    {
        self.out
    }

    /// The writer invariant against a store: table well formed and as long as
    /// the store, and every assigned node's dependencies assigned first.
    pub open spec fn inv<N: SerializationNode>(&self, store: Seq<N>) -> bool {
        &&& self.con.wf()
        &&& self.con.ids@.len() == store.len()
        &&& deps_assigned(store, self.con.id_map())
    }
}

impl WritePrimitive for DagWriter {
    open spec fn stream(&self) -> Seq<u8> {
        self.out@
    }

    open spec fn refs(&self) -> Map<int, u32> {
        self.con.id_map()
    }

    open spec fn idstate(&self) -> (Seq<Option<u32>>, u32, Seq<int>) {
        (self.con.ids@, self.con.count, self.con.order@)
    }

    fn u8(&mut self, x: u8) -> (r: Result<(), Error>) {
        emit(&mut self.out, TAG_U8, x as u128, 1);
        Ok(())
    }

    fn u16(&mut self, x: u16) -> (r: Result<(), Error>) {
        emit(&mut self.out, TAG_U16, x as u128, 2);
        Ok(())
    }

    fn u32(&mut self, x: u32) -> (r: Result<(), Error>) {
        emit(&mut self.out, TAG_U32, x as u128, 4);
        Ok(())
    }

    fn u128(&mut self, x: u128) -> (r: Result<(), Error>) {
        emit(&mut self.out, TAG_U128, x, 16);
        Ok(())
    }

    fn str(&mut self, x: &str) -> (r: Result<(), Error>) {
        Err(Error::NotImplemented)
    }
}

impl TagWrite for DagWriter {
    fn begin(&mut self) -> (r: Result<(), Error>) {
        emit(&mut self.out, TAG_BEGIN, 0, 0);
        Ok(())
    }

    fn end(&mut self) -> (r: Result<(), Error>) {
        emit(&mut self.out, TAG_END, 0, 0);
        Ok(())
    }

    fn primitive(&mut self, x: Value) -> (r: Result<(), Error>) {
        match x {
            Value::Begin => self.begin(),
            Value::End => self.end(),
            Value::U8(y) => self.u8(y),
            Value::U16(y) => self.u16(y),
            Value::U32(y) => self.u32(y),
            Value::U128(y) => self.u128(y),
        }
    }
}

impl Write for DagWriter {
    fn rc(&mut self, target: usize) -> (r: Result<(), Error>) {
        match self.con.lookup(target) {
            Some(id) => {
                emit(&mut self.out, TAG_U32, id as u128, 4);
                Ok(())
            },
            None => Err(Error::ObjNotFound),
        }
    }
}

/// Rendering depends only on the ids of the references the body names.
pub proof fn lemma_render_agree(items: Seq<BodyItem>, m1: Map<int, u32>, m2: Map<int, u32>)
    requires
        forall|j: int|
            0 <= j < items.len() ==> (#[trigger] items[j] matches BodyItem::Ref(d)
                ==> m1.contains_key(d) && m2.contains_key(d) && m1[d] == m2[d]),
    ensures
        render(items, m1) == render(items, m2),
{
    assert(crate::item_tokens(items, m1) =~= crate::item_tokens(items, m2)) by {
        assert forall|j: int| 0 <= j < items.len() implies #[trigger] crate::item_tokens(
            items,
            m1,
        )[j] == crate::item_tokens(items, m2)[j] by {
            assert(crate::item_tokens(items, m1)[j] == item_token(items[j], m1));
            assert(crate::item_tokens(items, m2)[j] == item_token(items[j], m2));
        }
    }
}

/// Frame segments split at any midpoint.
pub proof fn lemma_frames_concat<N: SerializationNode>(
    store: Seq<N>,
    order: Seq<int>,
    from: int,
    mid: int,
    to: int,
    m: Map<int, u32>,
)
    requires
        from <= mid <= to,
    ensures
        frames_bytes(store, order, from, to, m) == frames_bytes(store, order, from, mid, m)
            + frames_bytes(store, order, mid, to, m),
    decreases mid - from,
{
    if from < mid {
        lemma_frames_concat(store, order, from + 1, mid, to, m);
        assert(frame_bytes(store, order, from, m) + (frames_bytes(store, order, from + 1, mid, m)
            + frames_bytes(store, order, mid, to, m)) =~= (frame_bytes(store, order, from, m)
            + frames_bytes(store, order, from + 1, mid, m)) + frames_bytes(
            store,
            order,
            mid,
            to,
            m,
        ));
    } else {
        assert(frames_bytes(store, order, from, mid, m) + frames_bytes(store, order, mid, to, m)
            =~= frames_bytes(store, order, mid, to, m));
    }
}

/// A finished frame segment keeps its bytes when the emission order grows
/// and the id table gains new entries: its nodes' references were assigned
/// already, and assignments are never changed.
pub proof fn lemma_frames_stable<N: SerializationNode>(
    store: Seq<N>,
    o1: Seq<int>,
    o2: Seq<int>,
    from: int,
    to: int,
    m1: Map<int, u32>,
    m2: Map<int, u32>,
)
    requires
        wf_store(store),
        0 <= from,
        to <= o1.len(),
        to <= o2.len(),
        forall|j: int| from <= j < to ==> #[trigger] o2[j] == o1[j],
        forall|j: int| from <= j < to ==> 0 <= #[trigger] o1[j] < store.len(),
        forall|j: int| from <= j < to ==> m1.contains_key(#[trigger] o1[j]),
        deps_assigned(store, m1),
        map_extends(m2, m1),
    ensures
        frames_bytes(store, o1, from, to, m1) == frames_bytes(store, o2, from, to, m2),
    decreases to - from,
{
    if from < to {
        let x = store[o1[from]];
        assert forall|j: int|
            0 <= j < x.body().len() implies (#[trigger] x.body()[j] matches BodyItem::Ref(d)
            ==> m1.contains_key(d) && m2.contains_key(d) && m1[d] == m2[d]) by {
            match x.body()[j] {
                BodyItem::Ref(d) => {
                    assert(store[o1[from]].body()[j] matches BodyItem::Ref(t) && t == d);
                    assert(x.deps().contains(d));
                    let k = choose|k: int| 0 <= k < x.deps().len() && x.deps()[k] == d;
                    assert(store[o1[from]].deps()[k] == d);
                    assert(m1.contains_key(d));
                },
                BodyItem::Tok(_) => {},
            }
        }
        lemma_render_agree(x.body(), m1, m2);
        lemma_frames_stable(store, o1, o2, from + 1, to, m1, m2);
    }
}

/// Whatever a dependency list reaches, one of its entries reaches.
pub proof fn lemma_reach_many_elem<N: SerializationNode>(store: Seq<N>, ds: Seq<int>, b: int, x: int)
    requires
        wf_store(store),
        b <= store.len(),
        forall|k: int| 0 <= k < ds.len() ==> 0 <= #[trigger] ds[k] < b,
        reach_many(store, ds, b).contains(x),
    ensures
        exists|k: int|
            0 <= k < ds.len() && reach_set(store, #[trigger] ds[k]).contains(x),
    decreases ds.len(),
{
    if ds.len() > 0 {
        if reach_set(store, ds[0]).contains(x) {
            assert(0 <= 0 < ds.len() && reach_set(store, ds[0]).contains(x));
        } else {
            let rest = ds.subrange(1, ds.len() as int);
            lemma_reach_many_elem(store, rest, b, x);
            let k = choose|k: int| 0 <= k < rest.len() && reach_set(store, rest[k]).contains(x);
            assert(ds[k + 1] == rest[k]);
            assert(reach_set(store, ds[k + 1]).contains(x));
        }
    }
}

/// Each entry's own reach is inside the list's reach.
pub proof fn lemma_reach_many_has<N: SerializationNode>(store: Seq<N>, ds: Seq<int>, b: int, k: int)
    requires
        wf_store(store),
        b <= store.len(),
        forall|k2: int| 0 <= k2 < ds.len() ==> 0 <= #[trigger] ds[k2] < b,
        0 <= k < ds.len(),
    ensures
        reach_set(store, ds[k]).subset_of(reach_many(store, ds, b)),
    decreases k,
{
    let rest = ds.subrange(1, ds.len() as int);
    if k > 0 {
        lemma_reach_many_has(store, rest, b, k - 1);
        assert(rest[k - 1] == ds[k]);
    }
}

/// A node reaches itself.
pub proof fn lemma_reach_self<N: SerializationNode>(store: Seq<N>, i: int)
    requires
        wf_store(store),
        0 <= i < store.len(),
    ensures
        reach_set(store, i).contains(i),
{
}

/// Reached indices never exceed the starting index: emission can only look
/// down the store.
pub proof fn lemma_reach_below<N: SerializationNode>(store: Seq<N>, i: int, x: int)
    requires
        wf_store(store),
        0 <= i < store.len(),
        reach_set(store, i).contains(x),
    ensures
        0 <= x <= i,
    decreases i,
{
    if x != i {
        lemma_reach_many_elem(store, store[i].deps(), i, x);
        let k = choose|k: int|
            0 <= k < store[i].deps().len() && reach_set(
                store,
                store[i].deps()[k],
            ).contains(x);
        lemma_reach_below(store, store[i].deps()[k], x);
    }
}

/// Appending a dependency adds exactly its reach.
pub proof fn lemma_reach_many_snoc<N: SerializationNode>(store: Seq<N>, ds: Seq<int>, b: int, d: int)
    requires
        wf_store(store),
        b <= store.len(),
        forall|k: int| 0 <= k < ds.len() ==> 0 <= #[trigger] ds[k] < b,
        0 <= d < b,
    ensures
        reach_many(store, ds.push(d), b) == reach_many(store, ds, b).union(reach_set(store, d)),
    decreases ds.len(),
{
    let dsd = ds.push(d);
    assert(forall|k: int| 0 <= k < dsd.len() ==> 0 <= #[trigger] dsd[k] < b);
    if ds.len() == 0 {
        assert(dsd[0] == d);
        assert(dsd.subrange(1, dsd.len() as int) =~= Seq::<int>::empty());
        assert(reach_many(store, dsd, b) == reach_set(store, d).union(
            reach_many(store, Seq::<int>::empty(), b),
        ));
        assert(reach_many(store, dsd, b) =~= reach_many(store, ds, b).union(reach_set(store, d)));
    } else {
        let rest = ds.subrange(1, ds.len() as int);
        assert(dsd.subrange(1, dsd.len() as int) =~= rest.push(d));
        lemma_reach_many_snoc(store, rest, b, d);
        assert(dsd[0] == ds[0]);
        assert(reach_many(store, dsd, b) =~= reach_many(store, ds, b).union(reach_set(store, d)));
    }
}

/// Once a node is assigned, everything it reaches is assigned: dependencies
/// are always emitted before their dependents.
pub proof fn lemma_reach_in_dom<N: SerializationNode>(store: Seq<N>, m: Map<int, u32>, i: int)
    requires
        wf_store(store),
        0 <= i < store.len(),
        deps_assigned(store, m),
        m.contains_key(i),
    ensures
        forall|x: int| reach_set(store, i).contains(x) ==> m.contains_key(x),
    decreases i,
{
    assert forall|x: int| reach_set(store, i).contains(x) implies m.contains_key(x) by {
        if x != i {
            lemma_reach_many_elem(store, store[i].deps(), i, x);
            let k = choose|k: int|
                0 <= k < store[i].deps().len() && reach_set(
                    store,
                    store[i].deps()[k],
                ).contains(x);
            assert(m.contains_key(store[i].deps()[k]));
            lemma_reach_in_dom(store, m, store[i].deps()[k]);
        }
    }
}


/// Writes the object graph rooted at `idx` into the stream: dependencies
/// first, then one frame for `idx` itself, each reached node exactly once.
/// Ids are assigned densely in emission order. Never fails on a well-formed
/// store: every reference a body writes is a dependency, and every dependency
/// is emitted first.
#[verifier::loop_isolation(false)]
#[verifier::rlimit(100)]
pub fn write_object<N: SerializationNode>(w: &mut DagWriter, store: &Vec<N>, idx: usize) -> (r:
    Result<(), Error>)
    requires
        wf_store(store@),
        (idx as int) < store@.len(),
        store@.len() <= 0xFFFFFFFF,
        old(w).inv(store@),
    ensures
        r is Ok,
        final(w).inv(store@),
        final(w).con.order@.len() >= old(w).con.order@.len(),
        final(w).con.order@.subrange(0, old(w).con.order@.len() as int) == old(w).con.order@,
        map_extends(final(w).con.id_map(), old(w).con.id_map()),
        final(w).con.id_map().dom() == old(w).con.id_map().dom().union(
            reach_set(store@, idx as int),
        ),
        final(w).out@ == old(w).out@ + frames_bytes(
            store@,
            final(w).con.order@,
            old(w).con.order@.len() as int,
            final(w).con.order@.len() as int,
            final(w).con.id_map(),
        ),
    decreases idx,
{
    let ghost m0 = old(w).con.id_map();
    let ghost ord0 = old(w).con.order@;
    match w.con.lookup(idx) {
        Some(_) => {
            proof {
                lemma_reach_in_dom(store@, m0, idx as int);
                assert(m0.dom() =~= m0.dom().union(reach_set(store@, idx as int)));
                assert(w.con.order@.subrange(0, ord0.len() as int) =~= ord0);
                assert(w.out@ =~= old(w).out@ + frames_bytes(
                    store@,
                    w.con.order@,
                    ord0.len() as int,
                    w.con.order@.len() as int,
                    w.con.id_map(),
                ));
            }
            return Ok(());
        },
        None => {},
    }
    let node = &store[idx];
    let deps = node.get_dependencies();
    let ghost dseq = node.deps();
    proof {
        assert(deps@.len() == dseq.len());
        assert forall|k: int| 0 <= k < dseq.len() implies 0 <= #[trigger] dseq[k] < idx as int by {
            assert(store@[idx as int].deps()[k] == dseq[k]);
        }
        assert(dseq.subrange(0, 0) =~= Seq::<int>::empty());
        assert(reach_many(store@, Seq::<int>::empty(), idx as int) == Set::<int>::empty());
        assert(m0.dom() =~= m0.dom().union(reach_many(store@, dseq.subrange(0, 0), idx as int)));
    }
    let mut k: usize = 0;
    while k < deps.len()
        invariant
            k <= deps.len(),
            w.inv(store@),
            map_extends(w.con.id_map(), m0),
            w.con.order@.len() >= ord0.len(),
            w.con.order@.subrange(0, ord0.len() as int) == ord0,
            w.con.id_map().dom() == m0.dom().union(
                reach_many(store@, dseq.subrange(0, k as int), idx as int),
            ),
            w.out@ == old(w).out@ + frames_bytes(
                store@,
                w.con.order@,
                ord0.len() as int,
                w.con.order@.len() as int,
                w.con.id_map(),
            ),
        decreases deps.len() - k,
    {
        let d = deps[k];
        proof {
            assert(dseq[k as int] == deps@[k as int] as int);
        }
        let ghost con_pre = w.con;
        let rd = write_object(w, store, d);
        match rd {
            Err(e) => {
                return Err(e);
            },
            Ok(u) => {},
        }
        proof {
            let m_pre = con_pre.id_map();
            let ord_pre = con_pre.order@;
            let m_new = w.con.id_map();
            let ord_new = w.con.order@;
            // The id table only grew, so the frames already written keep
            // their bytes, and the stream splits at the old boundary.
            assert forall|j: int| ord0.len() <= j < ord_pre.len() implies #[trigger] ord_new[j]
                == ord_pre[j] by {
                assert(ord_new.subrange(0, ord_pre.len() as int)[j] == ord_new[j]);
            }
            assert forall|j: int|
                ord0.len() <= j < ord_pre.len() implies 0 <= #[trigger] ord_pre[j] < store@.len()
                && m_pre.contains_key(ord_pre[j]) by {
                assert(con_pre.ids@[ord_pre[j]] == Some(j as u32));
            }
            lemma_frames_stable(
                store@,
                ord_pre,
                ord_new,
                ord0.len() as int,
                ord_pre.len() as int,
                m_pre,
                m_new,
            );
            lemma_frames_concat(
                store@,
                ord_new,
                ord0.len() as int,
                ord_pre.len() as int,
                ord_new.len() as int,
                m_new,
            );
            assert(w.out@ =~= old(w).out@ + frames_bytes(
                store@,
                ord_new,
                ord0.len() as int,
                ord_new.len() as int,
                m_new,
            ));
            // The new assignments are exactly the reach of one more
            // dependency.
            assert(dseq.subrange(0, (k + 1) as int) =~= dseq.subrange(0, k as int).push(
                dseq[k as int],
            ));
            lemma_reach_many_snoc(
                store@,
                dseq.subrange(0, k as int),
                idx as int,
                dseq[k as int],
            );
            assert((m0.dom().union(reach_many(store@, dseq.subrange(0, k as int), idx as int)))
                .union(reach_set(store@, dseq[k as int])) =~= m0.dom().union(
                reach_many(store@, dseq.subrange(0, k as int), idx as int).union(
                    reach_set(store@, dseq[k as int]),
                ),
            ));
            assert(ord_new.subrange(0, ord0.len() as int) =~= ord0) by {
                assert forall|j: int| 0 <= j < ord0.len() implies ord_new.subrange(
                    0,
                    ord0.len() as int,
                )[j] == ord0[j] by {
                    assert(ord_new.subrange(0, ord_pre.len() as int)[j] == ord_new[j]);
                    assert(ord_pre.subrange(0, ord0.len() as int)[j] == ord_pre[j]);
                }
            }
        }
        k = k + 1;
    }
    // Every dependency now has an id, so the body's references all resolve.
    proof {
        assert(dseq.subrange(0, dseq.len() as int) =~= dseq);
        assert forall|t: int| dseq.contains(t) implies w.con.id_map().contains_key(t) by {
            let kk = choose|kk: int| 0 <= kk < dseq.len() && dseq[kk] == t;
            lemma_reach_many_has(store@, dseq, idx as int, kk);
            lemma_reach_self(store@, t);
            assert(reach_many(store@, dseq, idx as int).contains(t));
            assert(w.con.id_map().dom().contains(t));
        }
        assert(!w.con.id_map().contains_key(idx as int)) by {
            if reach_many(store@, dseq, idx as int).contains(idx as int) {
                lemma_reach_many_elem(store@, dseq, idx as int, idx as int);
                let kk = choose|kk: int|
                    0 <= kk < dseq.len() && reach_set(store@, dseq[kk]).contains(idx as int);
                lemma_reach_below(store@, dseq[kk], idx as int);
            }
            assert(!m0.dom().contains(idx as int));
        }
    }
    let ghost con_mid = w.con;
    let ghost out_mid = w.out@;
    let id = w.con.count;
    emit(&mut w.out, TAG_BEGIN, 0, 0);
    emit(&mut w.out, TAG_U32, id as u128, 4);
    let key = N::type_key();
    emit(&mut w.out, TAG_U128, key, 16);
    let res = write_obj(w, node);
    proof {
        assert(refs_resolved(node.body(), con_mid.id_map())) by {
            assert forall|j: int|
                0 <= j < node.body().len() implies (#[trigger] node.body()[j]
                matches BodyItem::Ref(t) ==> con_mid.id_map().contains_key(t)) by {
                match node.body()[j] {
                    BodyItem::Ref(t) => {
                        assert(store@[idx as int].body()[j] matches BodyItem::Ref(t2) && t2 == t);
                        assert(dseq.contains(t));
                    },
                    BodyItem::Tok(_) => {},
                }
            }
        }
        assert(res is Ok);
    }
    match res {
        Err(e) => {
            return Err(e);
        },
        Ok(u) => {},
    }
    emit(&mut w.out, TAG_END, 0, 0);
    proof {
        // Writing the envelope never touches the identity table.
        assert(w.con.ids@ == con_mid.ids@);
        assert(w.con.count == con_mid.count);
        assert(w.con.order@ == con_mid.order@);
        assert(w.con.wf());
        assert(w.con.id_map() =~= con_mid.id_map());
    }
    w.con.assign(idx);
    proof {
        lemma_marker_bytes();
        let m_mid = con_mid.id_map();
        let m_new = w.con.id_map();
        let ord_new = w.con.order@;
        let cnt = con_mid.count as int;
        assert(ord_new == con_mid.order@.push(idx as int));
        assert(ord_new[cnt] == idx as int);
        // The freshly written frame reads the same under the grown table:
        // its references are dependencies, all below `idx`.
        assert forall|j: int|
            0 <= j < node.body().len() implies (#[trigger] node.body()[j] matches BodyItem::Ref(t)
            ==> m_mid.contains_key(t) && m_new.contains_key(t) && m_mid[t] == m_new[t]) by {
            match node.body()[j] {
                BodyItem::Ref(t) => {
                    assert(store@[idx as int].body()[j] matches BodyItem::Ref(t2) && t2 == t);
                    assert(dseq.contains(t));
                    let kk = choose|kk: int| 0 <= kk < dseq.len() && dseq[kk] == t;
                    assert(t < idx as int);
                },
                BodyItem::Tok(_) => {},
            }
        }
        lemma_render_agree(node.body(), m_mid, m_new);
        // The bytes since the loop are exactly one frame.
        assert(w.out@ =~= out_mid + frame_bytes(store@, ord_new, cnt, m_new)) by {
            assert(id == cnt as u32);
            assert(store@[ord_new[cnt]] == *node);
            assert(w.out@ =~= out_mid + (seq![TAG_BEGIN] + enc_value(Value::U32(id)) + enc_value(
                Value::U128(key),
            ) + envelope_bytes(N::spec_version(), render(node.body(), m_mid)) + seq![TAG_END]));
        }
        // Prior frames keep their bytes under the new order and table.
        assert forall|j: int| ord0.len() <= j < cnt implies #[trigger] ord_new[j]
            == con_mid.order@[j] by {}
        assert forall|j: int|
            ord0.len() <= j < cnt implies 0 <= #[trigger] con_mid.order@[j] < store@.len()
            && m_mid.contains_key(con_mid.order@[j]) by {
            assert(con_mid.ids@[con_mid.order@[j]] == Some(j as u32));
        }
        lemma_frames_stable(
            store@,
            con_mid.order@,
            ord_new,
            ord0.len() as int,
            cnt,
            m_mid,
            m_new,
        );
        lemma_frames_concat(store@, ord_new, ord0.len() as int, cnt, cnt + 1, m_new);
        assert(frames_bytes(store@, ord_new, cnt + 1, cnt + 1, m_new) =~= Seq::<u8>::empty());
        assert(frames_bytes(store@, ord_new, cnt, cnt + 1, m_new) =~= frame_bytes(
            store@,
            ord_new,
            cnt,
            m_new,
        ) + Seq::<u8>::empty());
        assert(w.out@ =~= old(w).out@ + frames_bytes(
            store@,
            ord_new,
            ord0.len() as int,
            ord_new.len() as int,
            m_new,
        ));
        // The assigned set is now exactly the old one plus this node's reach.
        assert(m_new == m_mid.insert(idx as int, con_mid.count));
        assert(reach_set(store@, idx as int) == set![idx as int].union(
            reach_many(store@, dseq, idx as int),
        ));
        assert(m_new.dom() =~= m0.dom().union(reach_set(store@, idx as int)));
        // The new entry's dependencies all carry smaller ids.
        assert(deps_assigned(store@, m_new)) by {
            assert forall|x: int, kk: int|
                m_new.contains_key(x) && 0 <= x < store@.len() && 0 <= kk
                    < store@[x].deps().len() implies {
                let dd = #[trigger] store@[x].deps()[kk];
                m_new.contains_key(dd) && m_new[dd] < m_new[x]
            } by {
                let dd = store@[x].deps()[kk];
                if x == idx as int {
                    assert(dseq[kk] == dd);
                    assert(dseq.contains(dd));
                    assert(m_mid.contains_key(dd));
                    assert(con_mid.ids@[dd] is Some);
                    assert((m_mid[dd] as int) < con_mid.order@.len());
                } else {
                    assert(m_mid.contains_key(x));
                    assert(m_mid.contains_key(dd));
                    assert(dd < x);
                }
            }
        }
        assert(ord_new.subrange(0, ord0.len() as int) =~= ord0) by {
            assert forall|j: int| 0 <= j < ord0.len() implies ord_new.subrange(
                0,
                ord0.len() as int,
            )[j] == ord0[j] by {
                assert(con_mid.order@.subrange(0, ord0.len() as int)[j] == con_mid.order@[j]);
            }
        }
    }
    Ok(())
}

/// What the writer guarantees of a finished stream: `order` is the emission
/// order of the reached nodes, `m` their dense id assignment, and `bytes` the
/// concatenation of their frames, the `j`-th carrying id `j`.
pub open spec fn dag_stream_ok<N: SerializationNode>(
    store: Seq<N>,
    root: int,
    order: Seq<int>,
    m: Map<int, u32>,
    bytes: Seq<u8>,
) -> bool {
    &&& bytes == frames_bytes(store, order, 0, order.len() as int, m)
    &&& order.len() < 0x100000000
    &&& (forall|j: int| 0 <= j < order.len() ==> 0 <= #[trigger] order[j] < store.len())
    &&& (forall|j: int|
        0 <= j < order.len() ==> m.contains_key(#[trigger] order[j]) && m[order[j]] == j as u32)
    &&& (forall|i: int|
        #[trigger] m.contains_key(i) ==> exists|j: int| 0 <= j < order.len() && order[j] == i)
    &&& m.dom() == reach_set(store, root)
    &&& deps_assigned(store, m)
}

/// A finished stream: some emission order and id assignment satisfy
/// `dag_stream_ok` for it.
pub open spec fn dag_output_ok<N: SerializationNode>(store: Seq<N>, root: int, bytes: Seq<u8>) -> bool {
    exists|order: Seq<int>, m: Map<int, u32>|
        #[trigger] dag_stream_ok(store, root, order, m, bytes)
}

/// Serializes the object graph rooted at `root` to one byte stream: every
/// node the root reaches is emitted exactly once, dependencies before
/// dependents, as top-level frames with dense ids in emission order.
pub fn write_object_dag<N: SerializationNode>(store: &Vec<N>, root: usize) -> (r: Result<
    Vec<u8>,
    Error,
>)
    requires
        wf_store(store@),
        (root as int) < store@.len(),
        store@.len() <= 0xFFFFFFFF,
    ensures
        r is Ok,
        r matches Ok(bytes) ==> dag_output_ok(store@, root as int, bytes@),
{
    let mut w = DagWriter::new(store.len());
    let res = write_object(&mut w, store, root);
    let ghost gorder = w.con.order@;
    let ghost gm = w.con.id_map();
    proof {
        let order = gorder;
        let m = gm;
        assert(Map::<int, u32>::empty().dom() =~= Set::<int>::empty());
        assert(m.dom() =~= reach_set(store@, root as int));
        assert(w.out@ =~= Seq::<u8>::empty() + frames_bytes(
            store@,
            order,
            0,
            order.len() as int,
            m,
        ));
        assert forall|j: int|
            0 <= j < order.len() implies m.contains_key(#[trigger] order[j]) && m[order[j]]
            == j as u32 by {
            assert(w.con.ids@[order[j]] == Some(j as u32));
        }
        assert forall|i: int| #[trigger] m.contains_key(i) implies exists|j: int|
            0 <= j < order.len() && order[j] == i by {
            assert(w.con.ids@[i] is Some);
            let v = w.con.ids@[i]->0 as int;
            assert(order[v] == i);
        }
        assert(dag_stream_ok(store@, root as int, order, m, w.out@));
    }
    match res {
        Ok(u) => {
            let bytes = w.into_bytes();
            proof {
                assert(dag_stream_ok(store@, root as int, gorder, gm, bytes@));
                assert(dag_output_ok(store@, root as int, bytes@));
            }
            Ok(bytes)
        },
        Err(e) => Err(e),
    }
}

/// Dense id invariant: the stream is the concatenation of one frame per
/// emitted node, and the frame emitted `j`-th carries id `j` — ids are
/// `0, 1, …, k−1` in first-emission order.
pub proof fn lemma_dense_ids<N: SerializationNode>(
    store: Seq<N>,
    root: int,
    order: Seq<int>,
    m: Map<int, u32>,
    bytes: Seq<u8>,
)
    requires
        dag_stream_ok(store, root, order, m, bytes),
    ensures
        bytes == frames_bytes(store, order, 0, order.len() as int, m),
        forall|j: int|
            0 <= j < order.len() ==> frame_bytes(store, order, j, m) == frame_enc(
                j as u32,
                N::spec_type_key(),
                envelope_bytes(N::spec_version(), render(store[#[trigger] order[j]].body(), m)),
            ),
        forall|j: int| 0 <= j < order.len() ==> m[#[trigger] order[j]] == j as u32,
{
}

/// Dependency precedence: every reference written inside the frame emitted
/// `j`-th resolves to an id strictly below `j` — bodies only ever name
/// frames that stand earlier in the stream.
pub proof fn lemma_dependency_precedence<N: SerializationNode>(
    store: Seq<N>,
    root: int,
    order: Seq<int>,
    m: Map<int, u32>,
    bytes: Seq<u8>,
    j: int,
    t: int,
)
    requires
        dag_stream_ok(store, root, order, m, bytes),
        wf_store(store),
        0 <= j < order.len(),
        store[order[j]].body().contains(BodyItem::Ref(t)),
    ensures
        m.contains_key(t),
        (m[t] as int) < j,
        item_token(BodyItem::Ref(t), m) == Value::U32(m[t]),
{
    let x = store[order[j]];
    let i = choose|i: int| 0 <= i < x.body().len() && x.body()[i] == BodyItem::Ref(t);
    assert(store[order[j]].body()[i] matches BodyItem::Ref(tt) && tt == t);
    assert(x.deps().contains(t));
    let k = choose|k: int| 0 <= k < x.deps().len() && x.deps()[k] == t;
    assert(store[order[j]].deps()[k] == t);
    assert(m.contains_key(order[j]) && m[order[j]] == j as u32);
}

/// Identity preservation, writer side: a graph whose root reaches `k`
/// distinct nodes is written as exactly `k` top-level frames, one per node —
/// shared nodes are emitted once, however many edges point at them.
pub proof fn lemma_frame_count<N: SerializationNode>(
    store: Seq<N>,
    root: int,
    order: Seq<int>,
    m: Map<int, u32>,
    bytes: Seq<u8>,
)
    requires
        dag_stream_ok(store, root, order, m, bytes),
    ensures
        order.no_duplicates(),
        order.to_set() == reach_set(store, root),
        order.len() == reach_set(store, root).len(),
{
    assert(order.no_duplicates()) by {
        assert forall|j1: int, j2: int|
            0 <= j1 < order.len() && 0 <= j2 < order.len() && j1 != j2 implies order[j1]
            != order[j2] by {
            if order[j1] == order[j2] {
                assert(m[order[j1]] == j1 as u32);
                assert(m[order[j2]] == j2 as u32);
            }
        }
    }
    assert(order.to_set() =~= reach_set(store, root)) by {
        assert forall|x: int| order.to_set().contains(x) implies reach_set(
            store,
            root,
        ).contains(x) by {
            let j = choose|j: int| 0 <= j < order.len() && order[j] == x;
            assert(m.contains_key(x));
            assert(m.dom().contains(x));
        }
        assert forall|x: int| reach_set(store, root).contains(x) implies order.to_set().contains(
            x,
        ) by {
            assert(m.dom().contains(x));
            assert(m.contains_key(x));
            let j = choose|j: int| 0 <= j < order.len() && order[j] == x;
            assert(order.contains(x));
        }
    }
    order.unique_seq_to_set();
}


} // verus!
