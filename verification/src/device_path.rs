//! The device-path list as the load-option codec sees it: a sequence of
//! typed, variable-length nodes, each carrying an opaque payload, closed by
//! an end-of-entire-path marker. Only the node framing is interpreted here;
//! the two node shapes the core inspects are read in `matcher`.

use vstd::prelude::*;

use crate::bytes::u16_from_le;
use crate::bytes::u16_to_le;
use crate::bytes::read_u16_le;
use crate::bytes::push_u16_le;
use crate::errors::BootVarError;

verus! {

/// Device-path node type for media nodes (hard drive, file path).
pub const MEDIA_TYPE: u8 = 0x04;

/// Sub-type of the hard-drive partition node.
pub const MEDIA_HARD_DRIVE_SUBTYPE: u8 = 0x01;

/// Sub-type of the file-path node.
pub const MEDIA_FILE_PATH_SUBTYPE: u8 = 0x04;

/// Device-path node type for messaging nodes.
pub const MESSAGING_TYPE: u8 = 0x03;

/// Sub-type of the NVMe namespace node.
pub const MESSAGING_NVME_SUBTYPE: u8 = 0x17;

/// Device-path node type of the end markers.
pub const END_TYPE: u8 = 0x7F;

/// Sub-type of the end-of-entire-path marker.
pub const END_ENTIRE_SUBTYPE: u8 = 0xFF;

/// One device-path node: a type tag, a sub-type tag, and the payload bytes
/// that follow the four-byte node header. The payload is carried through
/// unchanged; only the hard-drive and file-path shapes are ever read.
pub struct DevicePathNode {
    pub device_type: u8,
    pub sub_type: u8,
    pub data: Vec<u8>,
}

/// The mathematical value of a node.
pub ghost struct NodeModel {
    pub device_type: u8,
    pub sub_type: u8,
    pub data: Seq<u8>,
}

impl View for DevicePathNode {
    type V = NodeModel;

    open spec fn view(&self) -> NodeModel {
        NodeModel { device_type: self.device_type, sub_type: self.sub_type, data: self.data@ }
    }
}

/// One device path: its nodes in bus-to-file order. The closing
/// end-of-entire-path marker is implicit and regenerated on encoding.
pub struct DevicePath {
    pub nodes: Vec<DevicePathNode>,
}

/// The node sequence that a sequence of node values stands for.
pub open spec fn nodes_models(s: Seq<DevicePathNode>) -> Seq<NodeModel> {
    s.map_values(|n: DevicePathNode| n@)
}

impl View for DevicePath {
    type V = Seq<NodeModel>;

    open spec fn view(&self) -> Seq<NodeModel> {
        nodes_models(self.nodes@)
    }
}

/// A node that can be written back: its serialized length fits the 16-bit
/// length field, and it is not itself the end marker (the codec keeps the
/// marker implicit).
pub open spec fn wf_node(n: NodeModel) -> bool {
    &&& n.data.len() + 4 <= 0xFFFF
    &&& !(n.device_type == END_TYPE && n.sub_type == END_ENTIRE_SUBTYPE)
}

/// Every node of the path can be written back.
pub open spec fn wf_path(p: Seq<NodeModel>) -> bool {
    forall|i: int| 0 <= i < p.len() ==> wf_node(#[trigger] p[i])
}

/// The four bytes of the end-of-entire-path marker.
pub open spec fn spec_end_node_bytes() -> Seq<u8> {
    seq![END_TYPE, END_ENTIRE_SUBTYPE, 4u8, 0u8]
}

/// The serialized bytes of one node: type, sub-type, the 16-bit total node
/// length stored little-endian, then the payload.
pub open spec fn spec_node_bytes(n: NodeModel) -> Seq<u8> {
    seq![n.device_type, n.sub_type] + u16_to_le((n.data.len() + 4) as u16) + n.data
}

/// The serialized bytes of a path: each node in order, then the end marker.
pub open spec fn spec_path_bytes(p: Seq<NodeModel>) -> Seq<u8>
    decreases p.len(),
{
    if p.len() == 0 {
        spec_end_node_bytes()
    } else {
        spec_node_bytes(p[0]) + spec_path_bytes(p.drop_first())
    }
}

/// Decoding one device path starting at `pos`: reads self-describing nodes
/// until the end-of-entire-path marker, and yields the nodes together with
/// the position just past the marker. `None` is any framing fault: a header
/// or payload that runs past the buffer, a node length below four, or an
/// end marker whose length is not exactly four.
pub open spec fn spec_decode_path(b: Seq<u8>, pos: int) -> Option<(Seq<NodeModel>, int)>
    decreases b.len() - pos,
{
    if pos < 0 || pos + 4 > b.len() {
        None
    } else {
        let l = u16_from_le(b[pos + 2], b[pos + 3]) as int;
        if b[pos] == END_TYPE && b[pos + 1] == END_ENTIRE_SUBTYPE {
            if l == 4 {
                Some((Seq::empty(), pos + 4))
            } else {
                None
            }
        } else if l < 4 || pos + l > b.len() {
            None
        } else {
            let node = NodeModel {
                device_type: b[pos],
                sub_type: b[pos + 1],
                data: b.subrange(pos + 4, pos + l),
            };
            match spec_decode_path(b, pos + l) {
                None => None,
                Some(rest) => Some((seq![node] + rest.0, rest.1)),
            }
        }
    }
}

/// What a successful path decode guarantees: the consumed span is at least
/// the four-byte marker, stays inside the buffer, yields writable nodes,
/// and re-serializes to exactly the bytes consumed.
pub proof fn lemma_decode_path_props(b: Seq<u8>, pos: int)
    ensures
        spec_decode_path(b, pos) matches Some(r) ==> {
            &&& pos + 4 <= r.1 <= b.len()
            &&& wf_path(r.0)
            &&& spec_path_bytes(r.0) == b.subrange(pos, r.1)
        },
    decreases b.len() - pos,
{
    if spec_decode_path(b, pos) is Some {
        let r = spec_decode_path(b, pos)->Some_0;
        let l = u16_from_le(b[pos + 2], b[pos + 3]) as int;
        if b[pos] == END_TYPE && b[pos + 1] == END_ENTIRE_SUBTYPE {
            assert(b[pos + 2] as int + b[pos + 3] as int * 0x100 == 4);
            assert(b[pos + 2] == 4 && b[pos + 3] == 0);
            assert(spec_path_bytes(r.0) =~= b.subrange(pos, pos + 4));
        } else {
            let node = NodeModel {
                device_type: b[pos],
                sub_type: b[pos + 1],
                data: b.subrange(pos + 4, pos + l),
            };
            let rest = spec_decode_path(b, pos + l)->Some_0;
            lemma_decode_path_props(b, pos + l);
            assert((seq![node] + rest.0)[0] == node);
            assert((seq![node] + rest.0).drop_first() =~= rest.0);
            assert(spec_path_bytes(r.0) == spec_node_bytes(node) + spec_path_bytes(rest.0));
            assert(l <= 0xFFFF);
            assert(u16_to_le((node.data.len() + 4) as u16) =~= seq![b[pos + 2], b[pos + 3]]) by {
                crate::bytes::lemma_u16_le_round_trip(b[pos + 2], b[pos + 3]);
            }
            assert(spec_node_bytes(node) =~= b.subrange(pos, pos + l));
            assert(spec_path_bytes(r.0) =~= b.subrange(pos, r.1));
            assert(wf_path(r.0)) by {
                assert(forall|i: int|
                    1 <= i < r.0.len() ==> r.0[i] == rest.0[i - 1] && wf_node(rest.0[i - 1]));
            }
        }
    }
}

/// Decode one device path starting at `start`, returning the path and the
/// position just past its end marker. Fails with `TruncatedDevicePath` on
/// any framing fault, and never reads outside the buffer.
pub fn decode_device_path(bytes: &[u8], start: usize) -> (r: Result<(DevicePath, usize), BootVarError>)
    ensures
        match r {
            Ok(p) => spec_decode_path(bytes@, start as int) == Some((p.0@, p.1 as int)),
            Err(e) => {
                &&& e == BootVarError::TruncatedDevicePath
                &&& spec_decode_path(bytes@, start as int) is None
            },
        },
{
    let n: usize = bytes.len();
    if start > n {
        return Err(BootVarError::TruncatedDevicePath);
    }
    let mut nodes: Vec<DevicePathNode> = Vec::new();
    let mut cur: usize = start;
    loop
        invariant
            start <= cur <= n,
            n == bytes@.len(),
            spec_decode_path(bytes@, start as int) == (match spec_decode_path(bytes@, cur as int) {
                None => None::<(Seq<NodeModel>, int)>,
                Some(rest) => Some((nodes_models(nodes@) + rest.0, rest.1)),
            }),
        decreases n - cur,
    {
        if n - cur < 4 {
            return Err(BootVarError::TruncatedDevicePath);
        }
        let dt = bytes[cur];
        let st = bytes[cur + 1];
        let l = read_u16_le(bytes, cur + 2) as usize;
        if dt == END_TYPE && st == END_ENTIRE_SUBTYPE {
            if l == 4 {
                proof {
                    assert(nodes_models(nodes@) + Seq::<NodeModel>::empty() =~= nodes_models(
                        nodes@));
                }
                return Ok((DevicePath { nodes }, cur + 4));
            }
            return Err(BootVarError::TruncatedDevicePath);
        }
        if l < 4 || l > n - cur {
            return Err(BootVarError::TruncatedDevicePath);
        }
        let mut data: Vec<u8> = Vec::new();
        assert(data@ =~= bytes@.subrange(cur + 4, cur + 4));
        let mut k: usize = cur + 4;
        while k < cur + l
            invariant
                cur + 4 <= k <= cur + l,
                cur + l <= n,
                n == bytes@.len(),
                data@ == bytes@.subrange(cur + 4, k as int),
            decreases cur + l - k,
        {
            data.push(bytes[k]);
            assert(bytes@.subrange(cur + 4, k + 1) =~= bytes@.subrange(cur + 4, k as int).push(
                bytes@[k as int]));
            k = k + 1;
        }
        let node = DevicePathNode { device_type: dt, sub_type: st, data };
        proof {
            let nd = NodeModel {
                device_type: dt,
                sub_type: st,
                data: bytes@.subrange(cur + 4, cur + l),
            };
            assert(node@ == nd);
            assert(nodes_models(nodes@.push(node)) =~= nodes_models(nodes@) + seq![nd]);
            if spec_decode_path(bytes@, cur + l) is Some {
                let rest = spec_decode_path(bytes@, cur + l)->Some_0;
                assert(spec_decode_path(bytes@, cur as int) == Some((seq![nd] + rest.0, rest.1)));
                assert(nodes_models(nodes@) + (seq![nd] + rest.0) =~= (nodes_models(nodes@)
                    + seq![nd]) + rest.0);
            }
        }
        nodes.push(node);
        cur = cur + l;
    }
}

/// Serialize one path: each node's header and payload in order, then the
/// end-of-entire-path marker.
pub fn encode_device_path(path: &DevicePath) -> (r: Vec<u8>)
    requires
        wf_path(path@),
    ensures
        r@ == spec_path_bytes(path@),
{
    let mut out: Vec<u8> = Vec::new();
    proof {
        assert(path@.skip(0) =~= path@);
        assert(Seq::<u8>::empty() + spec_path_bytes(path@) =~= spec_path_bytes(path@));
    }
    let mut i: usize = 0;
    while i < path.nodes.len()
        invariant
            0 <= i <= path.nodes.len(),
            wf_path(path@),
            path@.len() == path.nodes@.len(),
            out@ + spec_path_bytes(path@.skip(i as int)) == spec_path_bytes(path@),
        decreases path.nodes.len() - i,
    {
        let node = &path.nodes[i];
        proof {
            assert(path@[i as int] == node@);
            assert(wf_node(node@));
            let tail = path@.skip(i as int);
            assert(tail[0] == node@);
            assert(tail.drop_first() =~= path@.skip(i as int + 1));
        }
        let ghost out0 = out@;
        out.push(node.device_type);
        out.push(node.sub_type);
        push_u16_le(&mut out, (node.data.len() + 4) as u16);
        let mut k: usize = 0;
        while k < node.data.len()
            invariant
                0 <= k <= node.data@.len(),
                out@ == out0 + seq![node@.device_type, node@.sub_type] + u16_to_le((node@.data.len()
                    + 4) as u16) + node@.data.subrange(0, k as int),
            decreases node.data.len() - k,
        {
            out.push(node.data[k]);
            assert(node@.data.subrange(0, k + 1) =~= node@.data.subrange(0, k as int).push(
                node@.data[k as int]));
            assert(out@ =~= out0 + seq![node@.device_type, node@.sub_type] + u16_to_le((
            node@.data.len() + 4) as u16) + node@.data.subrange(0, k + 1));
            k = k + 1;
        }
        proof {
            assert(node@.data.subrange(0, node@.data.len() as int) =~= node@.data);
            assert(out@ =~= out0 + spec_node_bytes(node@));
            assert(out@ + spec_path_bytes(path@.skip(i as int + 1)) =~= out0 + (spec_node_bytes(
                node@) + spec_path_bytes(path@.skip(i as int + 1))));
        }
        i = i + 1;
    }
    proof {
        assert(path@.skip(path@.len() as int) =~= Seq::<NodeModel>::empty());
    }
    let ghost body = out@;
    out.push(END_TYPE);
    out.push(END_ENTIRE_SUBTYPE);
    out.push(4u8);
    out.push(0u8);
    assert(out@ =~= body + spec_end_node_bytes());
    out
}

} // verus!
