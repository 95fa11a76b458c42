//! Device-identity matching and path resynthesis: a hard-drive partition
//! node is a topology-independent identity; when a persisted boot entry's
//! partition identity is found again among freshly enumerated live paths,
//! a loadable path is rebuilt from the live bus route plus the entry's
//! file-path node.

use vstd::prelude::*;

use crate::boot_manager::EfiBootManager;
use crate::boot_manager::opts_models;
use crate::bytes::u32_from_le;
use crate::bytes::u64_from_le;
use crate::bytes::read_u32_le;
use crate::bytes::read_u64_le;
use crate::device_path::DevicePath;
use crate::device_path::DevicePathNode;
use crate::device_path::NodeModel;
use crate::device_path::nodes_models;
use crate::device_path::MEDIA_TYPE;
use crate::device_path::MEDIA_HARD_DRIVE_SUBTYPE;
use crate::device_path::MEDIA_FILE_PATH_SUBTYPE;
use crate::device_path::MESSAGING_TYPE;
use crate::device_path::MESSAGING_NVME_SUBTYPE;
use crate::load_option::LoadOptionModel;
use crate::load_option::paths_models;

verus! {

/// The serialized byte length of a hard-drive node's payload: partition
/// number, start, size, a sixteen-byte signature, the addressing format,
/// and the signature type.
pub const HARD_DRIVE_NODE_DATA_LEN: usize = 38;

/// The identity of a disk partition, independent of bus topology: the five
/// comparison fields of a hard-drive node (the signature together with its
/// type counting as one).
pub struct HardDriveIdentity {
    pub partition_number: u32,
    pub partition_start: u64,
    pub partition_size: u64,
    pub partition_format: u8,
    pub signature_type: u8,
    /// The sixteen signature bytes.
    pub signature: Vec<u8>,
}

/// The mathematical value of a partition identity.
#[verifier::ext_equal]
pub ghost struct HardDriveModel {
    pub partition_number: u32,
    pub partition_start: u64,
    pub partition_size: u64,
    pub partition_format: u8,
    pub signature_type: u8,
    pub signature: Seq<u8>,
}

impl View for HardDriveIdentity {
    type V = HardDriveModel;

    open spec fn view(&self) -> HardDriveModel {
        HardDriveModel {
            partition_number: self.partition_number,
            partition_start: self.partition_start,
            partition_size: self.partition_size,
            partition_format: self.partition_format,
            signature_type: self.signature_type,
            signature: self.signature@,
        }
    }
}

/// Whether a node is a well-formed hard-drive partition node.
pub open spec fn spec_is_hd_node(n: NodeModel) -> bool {
    n.device_type == MEDIA_TYPE && n.sub_type == MEDIA_HARD_DRIVE_SUBTYPE && n.data.len() == 38
}

/// The identity carried by a hard-drive node's payload.
pub open spec fn spec_hd_of_node(n: NodeModel) -> HardDriveModel
    recommends
        spec_is_hd_node(n),
{
    HardDriveModel {
        partition_number: u32_from_le(n.data[0], n.data[1], n.data[2], n.data[3]),
        partition_start: u64_from_le(n.data.subrange(4, 12)),
        partition_size: u64_from_le(n.data.subrange(12, 20)),
        partition_format: n.data[36],
        signature_type: n.data[37],
        signature: n.data.subrange(20, 36),
    }
}

/// The identity of the first hard-drive node of a path, if any.
pub open spec fn spec_hard_drive(p: Seq<NodeModel>) -> Option<HardDriveModel>
    decreases p.len(),
{
    if p.len() == 0 {
        None
    } else if spec_is_hd_node(p[0]) {
        Some(spec_hd_of_node(p[0]))
    } else {
        spec_hard_drive(p.drop_first())
    }
}

/// The first file-path node of a path, if any.
pub open spec fn spec_file_path(p: Seq<NodeModel>) -> Option<NodeModel>
    decreases p.len(),
{
    if p.len() == 0 {
        None
    } else if p[0].device_type == MEDIA_TYPE && p[0].sub_type == MEDIA_FILE_PATH_SUBTYPE {
        Some(p[0])
    } else {
        spec_file_path(p.drop_first())
    }
}

/// Whether a path holds an NVMe namespace node.
pub open spec fn spec_is_nvme(p: Seq<NodeModel>) -> bool {
    exists|i: int|
        0 <= i < p.len() && (#[trigger] p[i]).device_type == MESSAGING_TYPE && p[i].sub_type
            == MESSAGING_NVME_SUBTYPE
}

/// The resynthesized path: the whole live path (fresh bus topology),
/// then the boot entry's file-path node when the entry has one. The
/// entry's own, possibly stale, bus prefix is discarded.
pub open spec fn spec_resynthesize(live: Seq<NodeModel>, entry: Seq<NodeModel>) -> Seq<NodeModel> {
    match spec_file_path(entry) {
        Some(f) => live + seq![f],
        None => live,
    }
}

/// Whether a live path and a boot-entry path carry the same partition
/// identity: both hold a hard-drive node and the five identity fields are
/// equal pairwise.
pub open spec fn spec_hd_match(live: Seq<NodeModel>, entry: Seq<NodeModel>) -> bool {
    &&& spec_hard_drive(live) is Some
    &&& spec_hard_drive(entry) is Some
    &&& spec_hard_drive(live)->Some_0 == spec_hard_drive(entry)->Some_0
}

/// The paths to load for one boot-entry path: one resynthesized path per
/// matching live path, in the live paths' order.
pub open spec fn spec_plan_for_segment(lives: Seq<Seq<NodeModel>>, entry: Seq<NodeModel>) -> Seq<
    Seq<NodeModel>,
>
    decreases lives.len(),
{
    if lives.len() == 0 {
        Seq::empty()
    } else {
        let rest = spec_plan_for_segment(lives.drop_first(), entry);
        if spec_hd_match(lives[0], entry) {
            seq![spec_resynthesize(lives[0], entry)] + rest
        } else {
            rest
        }
    }
}

/// The paths to load for one boot entry: its path segments in stored
/// order, each against every live path.
pub open spec fn spec_plan_for_option(lives: Seq<Seq<NodeModel>>, segments: Seq<Seq<NodeModel>>)
    -> Seq<Seq<NodeModel>>
    decreases segments.len(),
{
    if segments.len() == 0 {
        Seq::empty()
    } else {
        spec_plan_for_segment(lives, segments[0]) + spec_plan_for_option(
            lives,
            segments.drop_first(),
        )
    }
}

/// The paths to load for a whole entry set, entries in their stored order.
pub open spec fn spec_plan_boot_loads(
    lives: Seq<Seq<NodeModel>>,
    options: Seq<(usize, LoadOptionModel)>,
) -> Seq<Seq<NodeModel>>
    decreases options.len(),
{
    if options.len() == 0 {
        Seq::empty()
    } else {
        spec_plan_for_option(lives, options[0].1.device_path_list) + spec_plan_boot_loads(
            lives,
            options.drop_first(),
        )
    }
}

/// The nodes that only lead up to a hard-drive node do not change which
/// identity is extracted: a prefix without hard-drive nodes can be
/// dropped. Identity extraction is therefore independent of the bus
/// topology in front of the partition node.
pub proof fn lemma_hard_drive_ignores_prefix(prefix: Seq<NodeModel>, rest: Seq<NodeModel>)
    requires
        forall|i: int| 0 <= i < prefix.len() ==> !spec_is_hd_node(#[trigger] prefix[i]),
    ensures
        spec_hard_drive(prefix + rest) == spec_hard_drive(rest),
    decreases prefix.len(),
{
    if prefix.len() == 0 {
        assert(prefix + rest =~= rest);
    } else {
        assert((prefix + rest)[0] == prefix[0]);
        assert((prefix + rest).drop_first() =~= prefix.drop_first() + rest);
        assert(forall|i: int|
            0 <= i < prefix.drop_first().len() ==> !spec_is_hd_node(
                #[trigger] prefix.drop_first()[i],
            ));
        lemma_hard_drive_ignores_prefix(prefix.drop_first(), rest);
    }
}

/// Two identities are the same exactly when the five comparison fields
/// (the signature with its type counting as one) are equal pairwise.
pub proof fn lemma_match_is_field_equality(a: HardDriveModel, b: HardDriveModel)
    ensures
        (a == b) <==> {
            &&& a.partition_number == b.partition_number
            &&& a.partition_start == b.partition_start
            &&& a.partition_size == b.partition_size
            &&& a.partition_format == b.partition_format
            &&& a.signature_type == b.signature_type
            &&& a.signature == b.signature
        },
{
    if a.partition_number == b.partition_number && a.partition_start == b.partition_start
        && a.partition_size == b.partition_size && a.partition_format == b.partition_format
        && a.signature_type == b.signature_type && a.signature == b.signature {
        assert(a =~= b);
    }
}

/// Copy a byte vector.
fn clone_bytes(src: &Vec<u8>) -> (r: Vec<u8>)
    ensures
        r@ == src@,
{
    let mut out: Vec<u8> = Vec::new();
    let mut k: usize = 0;
    while k < src.len()
        invariant
            k <= src@.len(),
            out@ == src@.subrange(0, k as int),
        decreases src@.len() - k,
    {
        out.push(src[k]);
        assert(src@.subrange(0, k + 1) =~= src@.subrange(0, k as int).push(src@[k as int]));
        k = k + 1;
    }
    proof {
        assert(src@.subrange(0, src@.len() as int) =~= src@);
    }
    out
}

/// Copy a node.
fn clone_node(n: &DevicePathNode) -> (r: DevicePathNode)
    ensures
        r@ == n@,
{
    DevicePathNode { device_type: n.device_type, sub_type: n.sub_type, data: clone_bytes(&n.data) }
}

/// Copy a path.
fn clone_path(p: &DevicePath) -> (r: DevicePath)
    ensures
        r@ == p@,
{
    let mut nodes: Vec<DevicePathNode> = Vec::new();
    let mut k: usize = 0;
    while k < p.nodes.len()
        invariant
            k <= p.nodes@.len(),
            nodes@.len() == k,
            forall|j: int| 0 <= j < k ==> #[trigger] nodes@[j]@ == p.nodes@[j]@,
        decreases p.nodes@.len() - k,
    {
        nodes.push(clone_node(&p.nodes[k]));
        k = k + 1;
    }
    let r = DevicePath { nodes };
    proof {
        assert(r@ =~= p@);
    }
    r
}

impl DevicePath {
    /// The identity of the first hard-drive partition node of this path,
    /// if it has one.
    pub fn hard_drive(&self) -> (r: Option<HardDriveIdentity>)
        ensures
            match r {
                Some(h) => spec_hard_drive(self@) == Some(h@),
                None => spec_hard_drive(self@) is None,
            },
    {
        let mut i: usize = 0;
        proof {
            assert(self@.skip(0) =~= self@);
        }
        while i < self.nodes.len()
            invariant
                i <= self.nodes@.len(),
                spec_hard_drive(self@) == spec_hard_drive(self@.skip(i as int)),
            decreases self.nodes@.len() - i,
        {
            let node = &self.nodes[i];
            proof {
                assert(self@.skip(i as int)[0] == self@[i as int]);
                assert(self@.skip(i as int).drop_first() =~= self@.skip(i as int + 1));
                assert(self@[i as int] == node@);
            }
            if node.device_type == MEDIA_TYPE && node.sub_type == MEDIA_HARD_DRIVE_SUBTYPE
                && node.data.len() == HARD_DRIVE_NODE_DATA_LEN {
                let partition_number = read_u32_le(node.data.as_slice(), 0);
                let partition_start = read_u64_le(node.data.as_slice(), 4);
                let partition_size = read_u64_le(node.data.as_slice(), 12);
                let mut signature: Vec<u8> = Vec::new();
                assert(signature@ =~= node@.data.subrange(20, 20));
                let mut k: usize = 20;
                while k < 36
                    invariant
                        20 <= k <= 36,
                        node@.data.len() == 38,
                        signature@ == node@.data.subrange(20, k as int),
                    decreases 36 - k,
                {
                    signature.push(node.data[k]);
                    assert(node@.data.subrange(20, k + 1) =~= node@.data.subrange(20, k as int)
                        .push(node@.data[k as int]));
                    k = k + 1;
                }
                let h = HardDriveIdentity {
                    partition_number,
                    partition_start,
                    partition_size,
                    partition_format: node.data[36],
                    signature_type: node.data[37],
                    signature,
                };
                proof {
                    assert(h@ =~= spec_hd_of_node(node@));
                }
                return Some(h);
            }
            i = i + 1;
        }
        proof {
            assert(self@.skip(self@.len() as int) =~= Seq::<NodeModel>::empty());
        }
        None
    }

    /// The first file-path node of this path, if it has one: the intended
    /// loader location stored with the entry.
    pub fn file_path(&self) -> (r: Option<DevicePathNode>)
        ensures
            match r {
                Some(f) => spec_file_path(self@) == Some(f@),
                None => spec_file_path(self@) is None,
            },
    {
        let mut i: usize = 0;
        proof {
            assert(self@.skip(0) =~= self@);
        }
        while i < self.nodes.len()
            invariant
                i <= self.nodes@.len(),
                spec_file_path(self@) == spec_file_path(self@.skip(i as int)),
            decreases self.nodes@.len() - i,
        {
            let node = &self.nodes[i];
            proof {
                assert(self@.skip(i as int)[0] == self@[i as int]);
                assert(self@.skip(i as int).drop_first() =~= self@.skip(i as int + 1));
                assert(self@[i as int] == node@);
            }
            if node.device_type == MEDIA_TYPE && node.sub_type == MEDIA_FILE_PATH_SUBTYPE {
                return Some(clone_node(node));
            }
            i = i + 1;
        }
        proof {
            assert(self@.skip(self@.len() as int) =~= Seq::<NodeModel>::empty());
        }
        None
    }

    /// Whether this path runs over an NVMe namespace.
    pub fn is_nvme(&self) -> (r: bool)
        ensures
            r == spec_is_nvme(self@),
    {
        let mut i: usize = 0;
        while i < self.nodes.len()
            invariant
                i <= self.nodes@.len(),
                forall|j: int|
                    0 <= j < i ==> !((#[trigger] self@[j]).device_type == MESSAGING_TYPE
                        && self@[j].sub_type == MESSAGING_NVME_SUBTYPE),
            decreases self.nodes@.len() - i,
        {
            let node = &self.nodes[i];
            proof {
                assert(self@[i as int] == node@);
            }
            if node.device_type == MESSAGING_TYPE && node.sub_type == MESSAGING_NVME_SUBTYPE {
                return true;
            }
            i = i + 1;
        }
        false
    }
}

impl HardDriveIdentity {
    /// Whether two partition identities are the same: all five comparison
    /// fields equal pairwise. This is the stable-identity check that
    /// survives bus renumbering caused by late driver binding.
    pub fn matches(&self, other: &HardDriveIdentity) -> (r: bool)
        ensures
            r == (self@ == other@),
    {
        let fields_eq = self.partition_number == other.partition_number && self.partition_start
            == other.partition_start && self.partition_size == other.partition_size
            && self.partition_format == other.partition_format && self.signature_type
            == other.signature_type;
        if !fields_eq {
            return false;
        }
        if self.signature.len() != other.signature.len() {
            proof {
                assert(self@.signature.len() != other@.signature.len());
            }
            return false;
        }
        let mut k: usize = 0;
        while k < self.signature.len()
            invariant
                k <= self.signature@.len(),
                self.signature@.len() == other.signature@.len(),
                self@.partition_number == other@.partition_number,
                self@.partition_start == other@.partition_start,
                self@.partition_size == other@.partition_size,
                self@.partition_format == other@.partition_format,
                self@.signature_type == other@.signature_type,
                forall|j: int| 0 <= j < k ==> self.signature@[j] == other.signature@[j],
            decreases self.signature@.len() - k,
        {
            if self.signature[k] != other.signature[k] {
                proof {
                    assert(self@.signature[k as int] != other@.signature[k as int]);
                }
                return false;
            }
            k = k + 1;
        }
        proof {
            assert(self@.signature =~= other@.signature);
            assert(self@ =~= other@);
        }
        true
    }
}

/// Rebuild a loadable path from a matched pair: every node of the live
/// path in order, then the boot entry's file-path node if the entry has
/// one; without a file-path node the spliced path ends at the partition
/// node.
pub fn resynthesize(live: &DevicePath, entry: &DevicePath) -> (r: DevicePath)
    ensures
        r@ == spec_resynthesize(live@, entry@),
{
    let mut out = clone_path(live);
    match entry.file_path() {
        Some(f) => {
            out.nodes.push(f);
            proof {
                assert(nodes_models(out.nodes@) =~= live@ + seq![spec_file_path(entry@)->Some_0]);
            }
        },
        None => {},
    }
    out
}

/// The nodes of a path before its first file-path node: the route to the
/// volume the running image was loaded from.
pub open spec fn spec_take_until_file(p: Seq<NodeModel>) -> Seq<NodeModel>
    decreases p.len(),
{
    if p.len() == 0 {
        Seq::empty()
    } else if p[0].device_type == MEDIA_TYPE && p[0].sub_type == MEDIA_FILE_PATH_SUBTYPE {
        Seq::empty()
    } else {
        seq![p[0]] + spec_take_until_file(p.drop_first())
    }
}

/// A file-path node for the given path string: the code units in order,
/// little-endian, with a null terminator, as the node grammar stores them.
pub fn file_path_node(path_units: &Vec<u16>) -> (r: DevicePathNode)
    ensures
        r@.device_type == MEDIA_TYPE,
        r@.sub_type == MEDIA_FILE_PATH_SUBTYPE,
        r@.data == crate::load_option::spec_description_bytes(path_units@),
{
    let mut data: Vec<u8> = Vec::new();
    proof {
        assert(path_units@.skip(0) =~= path_units@);
        assert(Seq::<u8>::empty() + crate::bytes::u16s_to_le(path_units@) =~= crate::bytes::u16s_to_le(
            path_units@));
    }
    let mut j: usize = 0;
    while j < path_units.len()
        invariant
            j <= path_units@.len(),
            data@ + crate::bytes::u16s_to_le(path_units@.skip(j as int)) == crate::bytes::u16s_to_le(
                path_units@,
            ),
        decreases path_units@.len() - j,
    {
        proof {
            assert(path_units@.skip(j as int)[0] == path_units@[j as int]);
            assert(path_units@.skip(j as int).drop_first() =~= path_units@.skip(j as int + 1));
        }
        let ghost data0 = data@;
        crate::bytes::push_u16_le(&mut data, path_units[j]);
        proof {
            assert(data@ + crate::bytes::u16s_to_le(path_units@.skip(j as int + 1)) =~= data0 + (
            crate::bytes::u16_to_le(path_units@[j as int]) + crate::bytes::u16s_to_le(
                path_units@.skip(j as int + 1),
            )));
        }
        j = j + 1;
    }
    proof {
        assert(path_units@.skip(path_units@.len() as int) =~= Seq::<u16>::empty());
        assert(crate::bytes::u16s_to_le(path_units@.skip(path_units@.len() as int)) =~= Seq::<
            u8,
        >::empty());
        assert(data@ =~= crate::bytes::u16s_to_le(path_units@));
    }
    data.push(0u8);
    data.push(0u8);
    proof {
        assert(data@ =~= crate::load_option::spec_description_bytes(path_units@));
    }
    DevicePathNode { device_type: MEDIA_TYPE, sub_type: MEDIA_FILE_PATH_SUBTYPE, data }
}

/// The path a sibling file of the running image is loaded from: the
/// image's own path truncated at its first file-path node, then the given
/// file node. This is how the storage driver next to the application is
/// located.
pub fn driver_sibling_path(image_path: &DevicePath, driver_file: DevicePathNode) -> (r: DevicePath)
    ensures
        r@ == spec_take_until_file(image_path@).push(driver_file@),
{
    let ghost nodes = image_path@;
    let mut out: Vec<DevicePathNode> = Vec::new();
    proof {
        assert(nodes.skip(0) =~= nodes);
        assert(nodes_models(out@) + spec_take_until_file(nodes) =~= spec_take_until_file(nodes));
    }
    let mut i: usize = 0;
    let mut stopped = false;
    while i < image_path.nodes.len() && !stopped
        invariant
            i <= image_path.nodes@.len(),
            nodes == image_path@,
            stopped ==> spec_take_until_file(nodes) == nodes_models(out@),
            !stopped ==> nodes_models(out@) + spec_take_until_file(nodes.skip(i as int))
                == spec_take_until_file(nodes),
        decreases image_path.nodes@.len() - i, (if stopped {
            0int
        } else {
            1int
        }),
    {
        proof {
            assert(nodes.skip(i as int)[0] == nodes[i as int]);
            assert(nodes.skip(i as int).drop_first() =~= nodes.skip(i as int + 1));
            assert(nodes[i as int] == image_path.nodes@[i as int]@);
        }
        let node = &image_path.nodes[i];
        if node.device_type == MEDIA_TYPE && node.sub_type == MEDIA_FILE_PATH_SUBTYPE {
            proof {
                assert(spec_take_until_file(nodes.skip(i as int)) =~= Seq::<NodeModel>::empty());
                assert(nodes_models(out@) + Seq::<NodeModel>::empty() =~= nodes_models(out@));
            }
            stopped = true;
        } else {
            let ghost out0 = nodes_models(out@);
            out.push(clone_node(node));
            proof {
                assert(nodes_models(out@) =~= out0 + seq![nodes[i as int]]);
                assert(nodes_models(out@) + spec_take_until_file(nodes.skip(i as int + 1)) =~= out0
                    + (seq![nodes[i as int]] + spec_take_until_file(nodes.skip(i as int + 1))));
            }
            i = i + 1;
        }
    }
    proof {
        if !stopped {
            assert(nodes.skip(nodes.len() as int) =~= Seq::<NodeModel>::empty());
            assert(spec_take_until_file(nodes.skip(nodes.len() as int)) =~= Seq::<
                NodeModel,
            >::empty());
            assert(nodes_models(out@) + Seq::<NodeModel>::empty() =~= nodes_models(out@));
        }
        assert(spec_take_until_file(nodes) == nodes_models(out@));
    }
    out.push(driver_file);
    let r = DevicePath { nodes: out };
    proof {
        assert(r@ =~= spec_take_until_file(image_path@).push(driver_file@));
    }
    r
}

/// Keep only the paths that run over an NVMe namespace.
pub open spec fn spec_filter_nvme(ps: Seq<Seq<NodeModel>>) -> Seq<Seq<NodeModel>>
    decreases ps.len(),
{
    if ps.len() == 0 {
        Seq::empty()
    } else {
        (if spec_is_nvme(ps[0]) {
            seq![ps[0]]
        } else {
            Seq::empty()
        }) + spec_filter_nvme(ps.drop_first())
    }
}

/// Keep only the paths that run over an NVMe namespace, in order.
pub fn filter_nvme_paths(paths: &Vec<DevicePath>) -> (r: Vec<DevicePath>)
    ensures
        paths_models(r@) == spec_filter_nvme(paths_models(paths@)),
{
    let ghost all = paths_models(paths@);
    let mut out: Vec<DevicePath> = Vec::new();
    proof {
        assert(all.skip(0) =~= all);
        assert(paths_models(out@) + spec_filter_nvme(all) =~= spec_filter_nvme(all));
    }
    let mut i: usize = 0;
    while i < paths.len()
        invariant
            i <= paths@.len(),
            all == paths_models(paths@),
            paths_models(out@) + spec_filter_nvme(all.skip(i as int)) == spec_filter_nvme(all),
        decreases paths@.len() - i,
    {
        proof {
            assert(all.skip(i as int)[0] == all[i as int]);
            assert(all.skip(i as int).drop_first() =~= all.skip(i as int + 1));
            assert(all[i as int] == paths@[i as int]@);
        }
        let p = &paths[i];
        if p.is_nvme() {
            let ghost out0 = paths_models(out@);
            let c = clone_path(p);
            out.push(c);
            proof {
                assert(paths_models(out@) =~= out0 + seq![all[i as int]]);
                assert(paths_models(out@) + spec_filter_nvme(all.skip(i as int + 1)) =~= out0 + (
                seq![all[i as int]] + spec_filter_nvme(all.skip(i as int + 1))));
            }
        }
        i = i + 1;
    }
    proof {
        assert(all.skip(all.len() as int) =~= Seq::<Seq<NodeModel>>::empty());
        assert(spec_filter_nvme(all.skip(all.len() as int)) =~= Seq::<Seq<NodeModel>>::empty());
        assert(paths_models(out@) =~= spec_filter_nvme(all));
    }
    out
}

/// The paths to load for one boot-entry path segment: one resynthesized
/// path per live path carrying the same partition identity, in the live
/// paths' order.
pub fn plan_for_segment(live_paths: &Vec<DevicePath>, entry: &DevicePath) -> (r: Vec<DevicePath>)
    ensures
        paths_models(r@) == spec_plan_for_segment(paths_models(live_paths@), entry@),
{
    let ghost lives = paths_models(live_paths@);
    let entry_hd = entry.hard_drive();
    let mut out: Vec<DevicePath> = Vec::new();
    proof {
        assert(lives.skip(0) =~= lives);
        assert(paths_models(out@) + spec_plan_for_segment(lives, entry@) =~= spec_plan_for_segment(
            lives,
            entry@,
        ));
    }
    let mut i: usize = 0;
    while i < live_paths.len()
        invariant
            i <= live_paths@.len(),
            lives == paths_models(live_paths@),
            match entry_hd {
                Some(h) => spec_hard_drive(entry@) == Some(h@),
                None => spec_hard_drive(entry@) is None,
            },
            paths_models(out@) + spec_plan_for_segment(lives.skip(i as int), entry@)
                == spec_plan_for_segment(lives, entry@),
        decreases live_paths@.len() - i,
    {
        proof {
            assert(lives.skip(i as int)[0] == lives[i as int]);
            assert(lives.skip(i as int).drop_first() =~= lives.skip(i as int + 1));
            assert(lives[i as int] == live_paths@[i as int]@);
        }
        let live = &live_paths[i];
        let is_match = match (&entry_hd, live.hard_drive()) {
            (Some(eh), Some(lh)) => lh.matches(eh),
            _ => false,
        };
        if is_match {
            let ghost out0 = paths_models(out@);
            let rp = resynthesize(live, entry);
            out.push(rp);
            proof {
                assert(spec_hd_match(lives[i as int], entry@));
                assert(paths_models(out@) =~= out0 + seq![spec_resynthesize(
                    lives[i as int],
                    entry@,
                )]);
                assert(paths_models(out@) + spec_plan_for_segment(lives.skip(i as int + 1), entry@)
                    =~= out0 + (seq![spec_resynthesize(lives[i as int], entry@)]
                    + spec_plan_for_segment(lives.skip(i as int + 1), entry@)));
            }
        } else {
            proof {
                assert(!spec_hd_match(lives[i as int], entry@));
            }
        }
        i = i + 1;
    }
    proof {
        assert(lives.skip(lives.len() as int) =~= Seq::<Seq<NodeModel>>::empty());
        assert(spec_plan_for_segment(lives.skip(lives.len() as int), entry@) =~= Seq::<
            Seq<NodeModel>,
        >::empty());
        assert(paths_models(out@) =~= spec_plan_for_segment(lives, entry@));
    }
    out
}

/// The paths to load for a whole entry set against the live paths:
/// entries in their stored (index-sorted) order, each entry's path
/// segments in stored order, each segment against every live path in
/// order. The caller performs one load-and-start per returned path;
/// failures of one are independent of the rest.
pub fn plan_boot_loads(manager: &EfiBootManager, live_paths: &Vec<DevicePath>) -> (r: Vec<
    DevicePath,
>)
    ensures
        paths_models(r@) == spec_plan_boot_loads(
            paths_models(live_paths@),
            opts_models(manager.boot_options@),
        ),
{
    let ghost lives = paths_models(live_paths@);
    let ghost opts = opts_models(manager.boot_options@);
    let mut out: Vec<DevicePath> = Vec::new();
    proof {
        assert(opts.skip(0) =~= opts);
        assert(paths_models(out@) + spec_plan_boot_loads(lives, opts) =~= spec_plan_boot_loads(
            lives,
            opts,
        ));
    }
    let mut i: usize = 0;
    while i < manager.boot_options.len()
        invariant
            i <= manager.boot_options@.len(),
            lives == paths_models(live_paths@),
            opts == opts_models(manager.boot_options@),
            paths_models(out@) + spec_plan_boot_loads(lives, opts.skip(i as int))
                == spec_plan_boot_loads(lives, opts),
        decreases manager.boot_options@.len() - i,
    {
        proof {
            assert(opts.skip(i as int)[0] == opts[i as int]);
            assert(opts.skip(i as int).drop_first() =~= opts.skip(i as int + 1));
            assert(opts[i as int].1 == manager.boot_options@[i as int].1@);
        }
        let option = &manager.boot_options[i].1;
        let ghost segments = opts[i as int].1.device_path_list;
        proof {
            assert(segments == paths_models(option.device_path_list@));
            assert(segments.skip(0) =~= segments);
        }
        let ghost out_base = paths_models(out@);
        let mut j: usize = 0;
        while j < option.device_path_list.len()
            invariant
                j <= option.device_path_list@.len(),
                segments == paths_models(option.device_path_list@),
                lives == paths_models(live_paths@),
                paths_models(out@) + spec_plan_for_option(lives, segments.skip(j as int))
                    == out_base + spec_plan_for_option(lives, segments),
            decreases option.device_path_list@.len() - j,
        {
            proof {
                assert(segments.skip(j as int)[0] == segments[j as int]);
                assert(segments.skip(j as int).drop_first() =~= segments.skip(j as int + 1));
                assert(segments[j as int] == option.device_path_list@[j as int]@);
            }
            let ghost out0 = paths_models(out@);
            let mut part = plan_for_segment(live_paths, &option.device_path_list[j]);
            let ghost part_models = paths_models(part@);
            out.append(&mut part);
            proof {
                assert(paths_models(out@) =~= out0 + part_models);
                assert(paths_models(out@) + spec_plan_for_option(lives, segments.skip(j as int + 1))
                    =~= out0 + (spec_plan_for_segment(lives, segments[j as int])
                    + spec_plan_for_option(lives, segments.skip(j as int + 1))));
            }
            j = j + 1;
        }
        proof {
            assert(segments.skip(segments.len() as int) =~= Seq::<Seq<NodeModel>>::empty());
            assert(spec_plan_for_option(lives, segments.skip(segments.len() as int)) =~= Seq::<
                Seq<NodeModel>,
            >::empty());
            assert(paths_models(out@) =~= out_base + spec_plan_for_option(lives, segments));
            assert(paths_models(out@) + spec_plan_boot_loads(lives, opts.skip(i as int + 1)) =~=
                out_base + (spec_plan_for_option(lives, opts[i as int].1.device_path_list)
                + spec_plan_boot_loads(lives, opts.skip(i as int + 1))));
        }
        i = i + 1;
    }
    proof {
        assert(opts.skip(opts.len() as int) =~= Seq::<(usize, LoadOptionModel)>::empty());
        assert(spec_plan_boot_loads(lives, opts.skip(opts.len() as int)) =~= Seq::<
            Seq<NodeModel>,
        >::empty());
        assert(paths_models(out@) =~= spec_plan_boot_loads(lives, opts));
    }
    out
}

} // verus!
