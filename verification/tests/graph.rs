use objstream::block::{create_writer, Writer};
use objstream::dynobj::DynObj;
use objstream::tag::TagWrite;
use objstream::write::write_object_dag;
use objstream::{
    Deserialize, DeserializerRegistry, Error, Read, SerializationNode, Serialize, TypeKey, Write,
    WritePrimitive,
};

const NODE_KEY: u128 = 0xe7785127_7c77_46e9_8ee9_512187035396;

#[derive(Debug, Clone, PartialEq, Eq)]
struct Node {
    nodes: Vec<usize>,
    data: u32,
}

impl Serialize for Node {
    fn version() -> u16 {
        0
    }
    fn serialize<W: Write>(&self, write: &mut W) -> Result<(), Error> {
        write.u32(self.nodes.len() as u32)?;
        for &node in &self.nodes {
            write.rc(node)?;
        }
        write.u32(self.data)
    }
}

impl Deserialize for Node {
    fn deserialize<R: Read>(read: &mut R, version: u16) -> Result<Self, Error> {
        match version {
            0 => {
                let len = read.u32()?;
                let mut nodes = Vec::new();
                for _ in 0..len {
                    nodes.push(read.rc()?);
                }
                Ok(Self {
                    nodes,
                    data: read.u32()?,
                })
            }
            _ => Err(Error::NotImplemented),
        }
    }
}

impl TypeKey for Node {
    fn type_key() -> u128 {
        NODE_KEY
    }
}

impl SerializationNode for Node {
    fn get_dependencies(&self) -> Vec<usize> {
        self.nodes.clone()
    }
}

fn diamond() -> Vec<Node> {
    let shared = Node {
        nodes: Vec::new(),
        data: 111,
    };
    let node1 = Node {
        nodes: vec![0],
        data: 222,
    };
    let node2 = Node {
        nodes: vec![0],
        data: 333,
    };
    let root = Node {
        nodes: vec![1, 2],
        data: 444,
    };
    vec![shared, node1, node2, root]
}

#[test]
fn test_graph() {
    let store = diamond();

    let bin = write_object_dag(&store, 3).unwrap();

    let mut registry = DeserializerRegistry::new();
    registry.register::<Node>();
    let y: DynObj<Node> = registry.read_object(bin).unwrap();

    let root = y.root().unwrap();
    assert_eq!(root.data, 444);
    assert_eq!(root.nodes.len(), 2);
    let c0 = y.get(root.nodes[0]).unwrap();
    let c1 = y.get(root.nodes[1]).unwrap();
    assert_eq!(c0.data, 222);
    assert_eq!(c1.data, 333);
    assert_eq!(c0.nodes.len(), 1);
    assert_eq!(c1.nodes.len(), 1);
    // The shared leaf keeps one identity: both edges name the same id.
    assert_eq!(c0.nodes[0], c1.nodes[0]);
}

#[test]
fn shared_node_written_once() {
    // Four distinct nodes reachable from the root: exactly four frames, with
    // dense ids, or the strict reader would have refused the stream.
    let store = diamond();
    let bin = write_object_dag(&store, 3).unwrap();
    let mut registry = DeserializerRegistry::new();
    registry.register::<Node>();
    let y: DynObj<Node> = registry.read_object(bin).unwrap();
    assert_eq!(y.len(), 4);
    assert_eq!(y.get(0).unwrap().data, 111);
    assert_eq!(y.get(1).unwrap().data, 222);
    assert_eq!(y.get(2).unwrap().data, 333);
    assert_eq!(y.get(3).unwrap().data, 444);
}

#[test]
fn unreached_nodes_stay_out() {
    // Writing from an inner node emits only what it reaches.
    let store = diamond();
    let bin = write_object_dag(&store, 1).unwrap();
    let mut registry = DeserializerRegistry::new();
    registry.register::<Node>();
    let y: DynObj<Node> = registry.read_object(bin).unwrap();
    assert_eq!(y.len(), 2);
    assert_eq!(y.root().unwrap().data, 222);
}

#[test]
fn unknown_type_key() {
    let store = diamond();
    let bin = write_object_dag(&store, 3).unwrap();
    let registry = DeserializerRegistry::new();
    let y: Result<DynObj<Node>, Error> = registry.read_object(bin);
    assert_eq!(y.unwrap_err(), Error::DeserializerNotFound);
}

/// A frame holding one Node envelope, written by hand.
fn raw_frame(w: &mut Writer, id: u32, key: u128, refs: &[u32], data: u32) {
    w.begin().unwrap();
    w.u32(id).unwrap();
    w.u128(key).unwrap();
    w.begin().unwrap();
    w.u16(0).unwrap();
    w.u32(refs.len() as u32).unwrap();
    for &r in refs {
        w.u32(r).unwrap();
    }
    w.u32(data).unwrap();
    w.end().unwrap();
    w.end().unwrap();
}

#[test]
fn dangling_reference() {
    // The body names id 5, but no earlier frame carried it.
    let mut w = create_writer(Vec::new());
    raw_frame(&mut w, 0, NODE_KEY, &[5], 999);
    let mut registry = DeserializerRegistry::new();
    registry.register::<Node>();
    let y: Result<DynObj<Node>, Error> = registry.read_object(w.into_inner());
    assert_eq!(y.unwrap_err(), Error::ObjNotFound);
}

#[test]
fn non_dense_id_is_refused() {
    let mut w = create_writer(Vec::new());
    raw_frame(&mut w, 7, NODE_KEY, &[], 1);
    let mut registry = DeserializerRegistry::new();
    registry.register::<Node>();
    let y: Result<DynObj<Node>, Error> = registry.read_object(w.into_inner());
    assert_eq!(y.unwrap_err(), Error::ObjNotFound);
}

#[test]
fn empty_stream_has_no_root() {
    let mut registry = DeserializerRegistry::new();
    registry.register::<Node>();
    let y: Result<DynObj<Node>, Error> = registry.read_object(Vec::new());
    assert_eq!(y.unwrap_err(), Error::ObjNotFound);
}

struct Sneaky;

impl Serialize for Sneaky {
    fn version() -> u16 {
        0
    }
    fn serialize<W: Write>(&self, write: &mut W) -> Result<(), Error> {
        write.rc(3)
    }
}

impl TypeKey for Sneaky {
    fn type_key() -> u128 {
        1
    }
}

impl SerializationNode for Sneaky {
    fn get_dependencies(&self) -> Vec<usize> {
        Vec::new()
    }
}

#[test]
fn writer_rejects_undeclared_reference() {
    // A body that references a node it never declared as a dependency fails
    // with ObjNotFound at write time.
    let store = vec![Sneaky];
    assert!(matches!(
        write_object_dag(&store, 0),
        Err(Error::ObjNotFound)
    ));
}

#[test]
fn frame_trailing_fields_are_skipped() {
    // A future frame format may append fields after the envelope; the frame's
    // own skip-to-end discards them.
    let mut w = create_writer(Vec::new());
    w.begin().unwrap();
    w.u32(0).unwrap();
    w.u128(NODE_KEY).unwrap();
    w.begin().unwrap();
    w.u16(0).unwrap();
    w.u32(0).unwrap();
    w.u32(17).unwrap();
    w.end().unwrap();
    w.u8(200).unwrap();
    w.end().unwrap();
    let mut registry = DeserializerRegistry::new();
    registry.register::<Node>();
    let y: DynObj<Node> = registry.read_object(w.into_inner()).unwrap();
    assert_eq!(y.root().unwrap().data, 17);
}

use objstream::chain::Chain;

#[test]
fn chain_round_trip() {
    // A shared tail: two cells point at one leaf; decode keeps one identity.
    let store = vec![
        Chain::Nil(5),
        Chain::Cons(0, 6),
        Chain::Cons(1, 7),
    ];
    let bin = write_object_dag(&store, 2).unwrap();
    let mut registry = DeserializerRegistry::new();
    registry.register::<Chain>();
    let y: DynObj<Chain> = registry.read_object(bin).unwrap();
    assert_eq!(y.len(), 3);
    assert_eq!(*y.root().unwrap(), Chain::Cons(1, 7));
    assert_eq!(*y.get(1).unwrap(), Chain::Cons(0, 6));
    assert_eq!(*y.get(0).unwrap(), Chain::Nil(5));
}
