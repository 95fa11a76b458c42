//! The binary codec for one persisted boot entry (a load option): a 32-bit
//! attribute word, a 16-bit device-path-section length, a null-terminated
//! UCS-2 description, the device-path section, and an optional trailing
//! payload.

use vstd::prelude::*;

use crate::bytes::u16_from_le;
use crate::bytes::u16_to_le;
use crate::bytes::u16s_to_le;
use crate::bytes::u32_from_le;
use crate::bytes::u32_to_le;
use crate::bytes::read_u16_le;
use crate::bytes::read_u32_le;
use crate::bytes::push_u16_le;
use crate::bytes::push_u32_le;
use crate::bytes::lemma_u16_le_round_trip;
use crate::bytes::lemma_u32_le_round_trip;
use crate::device_path::DevicePath;
use crate::device_path::NodeModel;
use crate::device_path::wf_path;
use crate::device_path::spec_decode_path;
use crate::device_path::spec_path_bytes;
use crate::device_path::decode_device_path;
use crate::device_path::encode_device_path;
use crate::device_path::lemma_decode_path_props;
use crate::errors::BootVarError;

verus! {

/// Attribute bit: the entry takes part in boot.
pub const LOAD_OPTION_ACTIVE: u32 = 0x00000001;

/// Attribute bit: drivers are reconnected before the entry is booted.
pub const LOAD_OPTION_FORCE_RECONNECT: u32 = 0x00000002;

/// Attribute bit: the entry is hidden from boot menus.
pub const LOAD_OPTION_HIDDEN: u32 = 0x00000008;

/// Mask of the multi-bit category sub-field.
pub const LOAD_OPTION_CATEGORY: u32 = 0x00001F00;

/// Category value of an application entry (one bit of the sub-field).
pub const LOAD_OPTION_CATEGORY_APP: u32 = 0x00000100;

/// Category value of a boot entry: the zero value of the sub-field.
pub const LOAD_OPTION_CATEGORY_BOOT: u32 = 0x00000000;

/// The 32-bit attribute word of a load option. The named bits are read by
/// masking; the category is a five-bit sub-field, not a single bit, and its
/// boot value is the zero value of the sub-field.
#[derive(Clone, Copy, Debug, PartialEq, Eq, Structural)]
pub struct LoadOptionAttributes(pub u32);

impl LoadOptionAttributes {
    /// Wrap a raw attribute word.
    pub fn from(data: u32) -> (r: Self)
        ensures
            r.0 == data,
    {
        LoadOptionAttributes(data)
    }

    /// The raw attribute word.
    pub fn bits(&self) -> (r: u32)
        ensures
            r == self.0,
    {
        self.0
    }

    /// Whether the entry takes part in boot.
    pub fn is_active(&self) -> (r: bool)
        ensures
            r == (self.0 & LOAD_OPTION_ACTIVE != 0),
    {
        self.0 & LOAD_OPTION_ACTIVE != 0
    }

    /// Whether drivers are reconnected before the entry is booted.
    pub fn is_force_reconnect(&self) -> (r: bool)
        ensures
            r == (self.0 & LOAD_OPTION_FORCE_RECONNECT != 0),
    {
        self.0 & LOAD_OPTION_FORCE_RECONNECT != 0
    }

    /// Whether the entry is hidden from boot menus.
    pub fn is_hidden(&self) -> (r: bool)
        ensures
            r == (self.0 & LOAD_OPTION_HIDDEN != 0),
    {
        self.0 & LOAD_OPTION_HIDDEN != 0
    }

    /// The category sub-field, read by masking.
    pub fn category(&self) -> (r: u32)
        ensures
            r == self.0 & LOAD_OPTION_CATEGORY,
    {
        self.0 & LOAD_OPTION_CATEGORY
    }

    /// Whether the category sub-field holds the application value.
    pub fn is_category_app(&self) -> (r: bool)
        ensures
            r == (self.0 & LOAD_OPTION_CATEGORY_APP != 0),
    {
        self.0 & LOAD_OPTION_CATEGORY_APP != 0
    }

    /// Whether the category sub-field holds the boot value, which is zero:
    /// "is boot category" means the category bits are all clear, not that
    /// some bit is set.
    pub fn is_category_boot(&self) -> (r: bool)
        ensures
            r == (self.0 & LOAD_OPTION_CATEGORY == 0),
    {
        self.0 & LOAD_OPTION_CATEGORY == 0
    }
}

/// One persisted boot entry, as decoded from a `Boot####` variable.
pub struct EfiLoadOption {
    /// The attribute word.
    pub attributes: LoadOptionAttributes,
    /// The description: UCS-2 code units without the null terminator, and
    /// with no embedded null.
    pub description: Vec<u16>,
    /// The device paths of the entry, in the stored order.
    pub device_path_list: Vec<DevicePath>,
    /// Bytes following the device-path section, if any.
    pub optional_data: Option<Vec<u8>>,
}

/// The mathematical value of a load option.
pub ghost struct LoadOptionModel {
    pub attributes: u32,
    pub description: Seq<u16>,
    pub device_path_list: Seq<Seq<NodeModel>>,
    pub optional_data: Option<Seq<u8>>,
}

/// The path sequence that a sequence of path values stands for.
pub open spec fn paths_models(s: Seq<DevicePath>) -> Seq<Seq<NodeModel>> {
    s.map_values(|p: DevicePath| p@)
}

impl View for EfiLoadOption {
    type V = LoadOptionModel;

    open spec fn view(&self) -> LoadOptionModel {
        LoadOptionModel {
            attributes: self.attributes.0,
            description: self.description@,
            device_path_list: paths_models(self.device_path_list@),
            optional_data: match self.optional_data {
                Option::Some(d) => Option::Some(d@),
                Option::None => Option::None,
            },
        }
    }
}

/// The serialized bytes of the description: its code units, then the null
/// terminator.
pub open spec fn spec_description_bytes(units: Seq<u16>) -> Seq<u8> {
    u16s_to_le(units) + seq![0u8, 0u8]
}

/// The serialized bytes of the device-path section: each path in order.
pub open spec fn spec_paths_bytes(ps: Seq<Seq<NodeModel>>) -> Seq<u8>
    decreases ps.len(),
{
    if ps.len() == 0 {
        Seq::empty()
    } else {
        spec_path_bytes(ps[0]) + spec_paths_bytes(ps.drop_first())
    }
}

/// A load option that can be written back: no embedded null in the
/// description, every path writable, and a device-path section that fits
/// its 16-bit length field.
pub open spec fn wf_load_option(m: LoadOptionModel) -> bool {
    &&& forall|i: int| 0 <= i < m.description.len() ==> m.description[i] != 0
    &&& forall|i: int| 0 <= i < m.device_path_list.len() ==> wf_path(#[trigger] m.device_path_list[i])
    &&& spec_paths_bytes(m.device_path_list).len() <= 0xFFFF
}

/// The serialized bytes of a load option. The device-path-section length is
/// always recomputed from the paths themselves, never taken from a stored
/// value.
pub open spec fn spec_encode_load_option(m: LoadOptionModel) -> Seq<u8> {
    u32_to_le(m.attributes) + u16_to_le(spec_paths_bytes(m.device_path_list).len() as u16)
        + spec_description_bytes(m.description) + spec_paths_bytes(m.device_path_list) + (match m
        .optional_data {
        Option::Some(d) => d,
        Option::None => Seq::empty(),
    })
}

/// Scanning the description from `pos`: code units until a null, and the
/// position just past the null. `None` when the input ends first.
pub open spec fn spec_scan_description(b: Seq<u8>, pos: int) -> Option<(Seq<u16>, int)>
    decreases b.len() - pos,
{
    if pos < 0 || pos + 2 > b.len() {
        None
    } else {
        let u = u16_from_le(b[pos], b[pos + 1]);
        if u == 0 {
            Some((Seq::empty(), pos + 2))
        } else {
            match spec_scan_description(b, pos + 2) {
                None => None,
                Some(r) => Some((seq![u] + r.0, r.1)),
            }
        }
    }
}

/// Decoding the device-path section at `pos` with `remaining` declared
/// bytes: whole paths are taken one at a time, each consumed span is
/// subtracted from the budget, and decoding stops when the budget reaches
/// zero. `None` is a framing fault or a span that would underflow the
/// budget. (A decoded span is never shorter than the four-byte end marker;
/// the guard merely makes that visible to the termination check.)
pub open spec fn spec_decode_paths(b: Seq<u8>, pos: int, remaining: int) -> Option<
    (Seq<Seq<NodeModel>>, int),
>
    decreases remaining,
{
    if remaining <= 0 {
        Some((Seq::empty(), pos))
    } else {
        match spec_decode_path(b, pos) {
            None => None,
            Some(r) => {
                let consumed = r.1 - pos;
                if consumed < 4 || consumed > remaining {
                    None
                } else {
                    match spec_decode_paths(b, r.1, remaining - consumed) {
                        None => None,
                        Some(rs) => Some((seq![r.0] + rs.0, rs.1)),
                    }
                }
            },
        }
    }
}

/// Decoding one load option from the raw bytes of a `Boot####` variable.
pub open spec fn spec_decode_load_option(b: Seq<u8>) -> Result<LoadOptionModel, BootVarError> {
    if b.len() < 6 {
        Result::Err(BootVarError::RecordTooShort)
    } else {
        match spec_scan_description(b, 6) {
            None => Result::Err(BootVarError::MalformedRecord),
            Some(d) => {
                let fpll = u16_from_le(b[4], b[5]) as int;
                match spec_decode_paths(b, d.1, fpll) {
                    None => Result::Err(BootVarError::TruncatedDevicePath),
                    Some(ps) => Result::Ok(
                        LoadOptionModel {
                            attributes: u32_from_le(b[0], b[1], b[2], b[3]),
                            description: d.0,
                            device_path_list: ps.0,
                            optional_data: if ps.1 < b.len() {
                                Option::Some(b.subrange(ps.1, b.len() as int))
                            } else {
                                Option::None
                            },
                        },
                    ),
                }
            },
        }
    }
}

/// What a successful description scan guarantees: the span stays inside the
/// buffer, no scanned unit is null, and the units re-serialize (with their
/// terminator) to exactly the bytes consumed.
pub proof fn lemma_scan_description_props(b: Seq<u8>, pos: int)
    ensures
        spec_scan_description(b, pos) matches Some(r) ==> {
            &&& pos + 2 <= r.1 <= b.len()
            &&& forall|i: int| 0 <= i < r.0.len() ==> r.0[i] != 0
            &&& spec_description_bytes(r.0) == b.subrange(pos, r.1)
        },
    decreases b.len() - pos,
{
    if spec_scan_description(b, pos) is Some {
        let r = spec_scan_description(b, pos)->Some_0;
        let u = u16_from_le(b[pos], b[pos + 1]);
        if u == 0 {
            assert(b[pos] as int + b[pos + 1] as int * 0x100 == 0);
            assert(b[pos] == 0 && b[pos + 1] == 0);
            assert(u16s_to_le(r.0) =~= Seq::<u8>::empty());
            assert(spec_description_bytes(r.0) =~= b.subrange(pos, pos + 2));
        } else {
            lemma_scan_description_props(b, pos + 2);
            let rest = spec_scan_description(b, pos + 2)->Some_0;
            assert((seq![u] + rest.0)[0] == u);
            assert((seq![u] + rest.0).drop_first() =~= rest.0);
            assert(u16_to_le(u) =~= seq![b[pos], b[pos + 1]]) by {
                lemma_u16_le_round_trip(b[pos], b[pos + 1]);
            }
            assert(spec_description_bytes(r.0) =~= u16_to_le(u) + spec_description_bytes(rest.0));
            assert(spec_description_bytes(r.0) =~= b.subrange(pos, r.1));
            assert(forall|i: int| 1 <= i < r.0.len() ==> r.0[i] == rest.0[i - 1]);
        }
    }
}

/// What a successful section decode guarantees: exactly the declared budget
/// is consumed, it lies inside the buffer, every path is writable, and the
/// paths re-serialize to exactly the bytes consumed.
pub proof fn lemma_decode_paths_props(b: Seq<u8>, pos: int, remaining: int)
    requires
        0 <= pos <= b.len(),
        remaining >= 0,
    ensures
        spec_decode_paths(b, pos, remaining) matches Some(rs) ==> {
            &&& rs.1 == pos + remaining
            &&& pos + remaining <= b.len()
            &&& forall|i: int| 0 <= i < rs.0.len() ==> wf_path(#[trigger] rs.0[i])
            &&& spec_paths_bytes(rs.0) == b.subrange(pos, pos + remaining)
        },
    decreases remaining,
{
    if spec_decode_paths(b, pos, remaining) is Some {
        let rs = spec_decode_paths(b, pos, remaining)->Some_0;
        if remaining <= 0 {
            assert(spec_paths_bytes(rs.0) =~= b.subrange(pos, pos));
        } else {
            let r = spec_decode_path(b, pos)->Some_0;
            lemma_decode_path_props(b, pos);
            let consumed = r.1 - pos;
            lemma_decode_paths_props(b, r.1, remaining - consumed);
            let rest = spec_decode_paths(b, r.1, remaining - consumed)->Some_0;
            assert((seq![r.0] + rest.0)[0] == r.0);
            assert((seq![r.0] + rest.0).drop_first() =~= rest.0);
            assert(spec_paths_bytes(rs.0) =~= spec_path_bytes(r.0) + spec_paths_bytes(rest.0));
            assert(spec_paths_bytes(rs.0) =~= b.subrange(pos, pos + remaining));
            assert(forall|i: int| 1 <= i < rs.0.len() ==> rs.0[i] == rest.0[i - 1] && wf_path(
                rest.0[i - 1]));
        }
    }
}

/// Round trip: any buffer that decodes re-encodes to exactly itself. In
/// particular the recomputed device-path-section length always equals the
/// stored one, since a decode succeeds only when the declared budget is
/// consumed exactly.
pub proof fn lemma_load_option_round_trip(b: Seq<u8>)
    ensures
        spec_decode_load_option(b) matches Ok(m) ==> {
            &&& wf_load_option(m)
            &&& spec_encode_load_option(m) == b
        },
{
    if spec_decode_load_option(b) is Ok {
        let m = spec_decode_load_option(b)->Ok_0;
        let d = spec_scan_description(b, 6)->Some_0;
        let fpll = u16_from_le(b[4], b[5]) as int;
        lemma_scan_description_props(b, 6);
        lemma_decode_paths_props(b, d.1, fpll);
        let ps = spec_decode_paths(b, d.1, fpll)->Some_0;
        assert(spec_paths_bytes(m.device_path_list).len() == fpll);
        assert(wf_load_option(m));
        assert(u32_to_le(m.attributes) =~= b.subrange(0, 4)) by {
            lemma_u32_le_round_trip(b[0], b[1], b[2], b[3]);
        }
        assert(u16_to_le(spec_paths_bytes(m.device_path_list).len() as u16) =~= b.subrange(4, 6))
            by {
            lemma_u16_le_round_trip(b[4], b[5]);
        }
        assert(spec_description_bytes(m.description) == b.subrange(6, d.1));
        assert(spec_paths_bytes(m.device_path_list) == b.subrange(d.1, ps.1));
        assert((match m.optional_data {
            Option::Some(od) => od,
            Option::None => Seq::<u8>::empty(),
        }) =~= b.subrange(ps.1, b.len() as int));
        assert(spec_encode_load_option(m) =~= b);
    }
}

/// Malformed input: a buffer shorter than the six-byte header always fails
/// with `RecordTooShort`.
pub proof fn lemma_short_record_fails(b: Seq<u8>)
    requires
        b.len() < 6,
    ensures
        spec_decode_load_option(b) == Result::<LoadOptionModel, BootVarError>::Err(
            BootVarError::RecordTooShort,
        ),
{
}

/// Malformed input: when no null code unit stands at any scanned position
/// of the description, the decode always fails with `MalformedRecord`.
pub proof fn lemma_unterminated_description_fails(b: Seq<u8>)
    requires
        b.len() >= 6,
        forall|p: int|
            6 <= p && (p - 6) % 2 == 0 && p + 2 <= b.len() ==> u16_from_le(
                #[trigger] b[p],
                b[p + 1],
            ) != 0,
    ensures
        spec_decode_load_option(b) == Result::<LoadOptionModel, BootVarError>::Err(
            BootVarError::MalformedRecord,
        ),
{
    lemma_scan_without_null_fails(b, 6);
}

/// A description scan over a region with no null unit at any scanned
/// position finds no terminator.
proof fn lemma_scan_without_null_fails(b: Seq<u8>, pos: int)
    requires
        pos >= 0,
        forall|p: int|
            pos <= p && (p - pos) % 2 == 0 && p + 2 <= b.len() ==> u16_from_le(
                #[trigger] b[p],
                b[p + 1],
            ) != 0,
    ensures
        spec_scan_description(b, pos) is None,
    decreases b.len() - pos,
{
    if pos + 2 <= b.len() {
        assert((pos - pos) % 2 == 0);
        assert(u16_from_le(b[pos], b[pos + 1]) != 0);
        assert(forall|p: int|
            pos + 2 <= p && (p - (pos + 2)) % 2 == 0 && p + 2 <= b.len() ==> u16_from_le(
                #[trigger] b[p],
                b[p + 1],
            ) != 0);
        lemma_scan_without_null_fails(b, pos + 2);
    }
}

/// Truncation: when the declared section length is positive but smaller
/// than the first device path actually found there (or no whole path can
/// be framed at all), the decode always fails with `TruncatedDevicePath`.
pub proof fn lemma_truncated_section_fails(b: Seq<u8>)
    requires
        b.len() >= 6,
        spec_scan_description(b, 6) is Some,
        u16_from_le(b[4], b[5]) > 0,
        ({
            let d = spec_scan_description(b, 6)->Some_0;
            match spec_decode_path(b, d.1) {
                None => true,
                Some(r) => r.1 - d.1 > u16_from_le(b[4], b[5]) as int,
            }
        }),
    ensures
        spec_decode_load_option(b) == Result::<LoadOptionModel, BootVarError>::Err(
            BootVarError::TruncatedDevicePath,
        ),
{
    let d = spec_scan_description(b, 6)->Some_0;
    let fpll = u16_from_le(b[4], b[5]) as int;
    assert(spec_decode_paths(b, d.1, fpll) is None);
}

/// Scan the description: code units until the null terminator.
fn scan_description(bytes: &[u8], start: usize) -> (r: Result<(Vec<u16>, usize), BootVarError>)
    requires
        start <= bytes@.len(),
    ensures
        match r {
            Ok(p) => spec_scan_description(bytes@, start as int) == Some((p.0@, p.1 as int)),
            Err(e) => {
                &&& e == BootVarError::MalformedRecord
                &&& spec_scan_description(bytes@, start as int) is None
            },
        },
{
    let n: usize = bytes.len();
    let mut units: Vec<u16> = Vec::new();
    let mut pos: usize = start;
    loop
        invariant
            start <= pos <= n,
            n == bytes@.len(),
            spec_scan_description(bytes@, start as int) == (match spec_scan_description(
                bytes@,
                pos as int,
            ) {
                None => None::<(Seq<u16>, int)>,
                Some(r) => Some((units@ + r.0, r.1)),
            }),
        decreases n - pos,
    {
        if n - pos < 2 {
            return Err(BootVarError::MalformedRecord);
        }
        let u = read_u16_le(bytes, pos);
        if u == 0 {
            proof {
                assert(units@ + Seq::<u16>::empty() =~= units@);
            }
            return Ok((units, pos + 2));
        }
        proof {
            if spec_scan_description(bytes@, pos + 2) is Some {
                let rest = spec_scan_description(bytes@, pos + 2)->Some_0;
                assert(spec_scan_description(bytes@, pos as int) == Some(
                    (seq![u] + rest.0, rest.1),
                ));
                assert(units@ + (seq![u] + rest.0) =~= (units@ + seq![u]) + rest.0);
            }
            assert(units@.push(u) =~= units@ + seq![u]);
        }
        units.push(u);
        pos = pos + 2;
    }
}

/// Decode the device-path section: whole paths, one at a time, against the
/// declared byte budget.
fn decode_path_section(bytes: &[u8], start: usize, budget: usize) -> (r: Result<
    (Vec<DevicePath>, usize),
    BootVarError,
>)
    ensures
        match r {
            Ok(p) => spec_decode_paths(bytes@, start as int, budget as int) == Some(
                (paths_models(p.0@), p.1 as int),
            ),
            Err(e) => {
                &&& e == BootVarError::TruncatedDevicePath
                &&& spec_decode_paths(bytes@, start as int, budget as int) is None
            },
        },
{
    let mut paths: Vec<DevicePath> = Vec::new();
    let mut cur: usize = start;
    let mut remaining: usize = budget;
    while remaining > 0
        invariant
            spec_decode_paths(bytes@, start as int, budget as int) == (match spec_decode_paths(
                bytes@,
                cur as int,
                remaining as int,
            ) {
                None => None::<(Seq<Seq<NodeModel>>, int)>,
                Some(rs) => Some((paths_models(paths@) + rs.0, rs.1)),
            }),
        decreases remaining,
    {
        match decode_device_path(bytes, cur) {
            Err(_) => {
                return Err(BootVarError::TruncatedDevicePath);
            },
            Ok(pe) => {
                let (path, endp) = pe;
                proof {
                    lemma_decode_path_props(bytes@, cur as int);
                }
                let consumed = endp - cur;
                if consumed > remaining {
                    return Err(BootVarError::TruncatedDevicePath);
                }
                proof {
                    let bb = bytes@;
                    assert(paths_models(paths@.push(path)) =~= paths_models(paths@) + seq![path@]);
                    if spec_decode_paths(bb, endp as int, remaining - consumed) is Some {
                        let rs = spec_decode_paths(bb, endp as int, remaining - consumed)->Some_0;
                        assert(spec_decode_paths(bb, cur as int, remaining as int) == Some(
                            (seq![path@] + rs.0, rs.1),
                        ));
                        assert(paths_models(paths@) + (seq![path@] + rs.0) =~= (paths_models(paths@)
                            + seq![path@]) + rs.0);
                    }
                }
                paths.push(path);
                cur = endp;
                remaining = remaining - consumed;
            },
        }
    }
    proof {
        assert(paths_models(paths@) + Seq::<Seq<NodeModel>>::empty() =~= paths_models(paths@));
    }
    Ok((paths, cur))
}

impl EfiLoadOption {
    /// Decode one load option from the raw bytes of a `Boot####` variable.
    ///
    /// An input shorter than the six-byte header fails with
    /// `RecordTooShort`; a description with no null terminator fails with
    /// `MalformedRecord`; a device-path section that does not agree with
    /// the node boundaries found in the input fails with
    /// `TruncatedDevicePath`. No input makes it read outside the buffer.
    pub fn try_from(bytes: &[u8]) -> (r: Result<EfiLoadOption, BootVarError>)
        ensures
            match r {
                Ok(o) => spec_decode_load_option(bytes@) == Result::<
                    LoadOptionModel,
                    BootVarError,
                >::Ok(o@),
                Err(e) => spec_decode_load_option(bytes@) == Result::<
                    LoadOptionModel,
                    BootVarError,
                >::Err(e),
            },
    {
        let n: usize = bytes.len();
        if n < 6 {
            return Err(BootVarError::RecordTooShort);
        }
        let attributes = read_u32_le(bytes, 0);
        let fpll = read_u16_le(bytes, 4) as usize;
        let (description, dp_start) = match scan_description(bytes, 6) {
            Err(e) => {
                return Err(e);
            },
            Ok(d) => d,
        };
        let (device_path_list, dp_end) = match decode_path_section(bytes, dp_start, fpll) {
            Err(e) => {
                return Err(e);
            },
            Ok(p) => p,
        };
        proof {
            lemma_scan_description_props(bytes@, 6);
            lemma_decode_paths_props(bytes@, dp_start as int, fpll as int);
        }
        let optional_data = if dp_end < n {
            let mut od: Vec<u8> = Vec::new();
            assert(od@ =~= bytes@.subrange(dp_end as int, dp_end as int));
            let mut k: usize = dp_end;
            while k < n
                invariant
                    dp_end <= k <= n,
                    n == bytes@.len(),
                    od@ == bytes@.subrange(dp_end as int, k as int),
                decreases n - k,
            {
                od.push(bytes[k]);
                assert(bytes@.subrange(dp_end as int, k + 1) =~= bytes@.subrange(
                    dp_end as int,
                    k as int,
                ).push(bytes@[k as int]));
                k = k + 1;
            }
            Some(od)
        } else {
            None
        };
        Ok(
            EfiLoadOption {
                attributes: LoadOptionAttributes(attributes),
                description,
                device_path_list,
                optional_data,
            },
        )
    }

    /// Serialize this load option. The device-path-section length field is
    /// recomputed as the sum of each path's serialized length.
    pub fn as_bytes(&self) -> (r: Vec<u8>)
        requires
            wf_load_option(self@),
        ensures
            r@ == spec_encode_load_option(self@),
    {
        let ghost ps = paths_models(self.device_path_list@);

        // Serialize the device-path section first: its byte length is the
        // value of the length field.
        let mut section: Vec<u8> = Vec::new();
        proof {
            assert(ps.skip(0) =~= ps);
            assert(Seq::<u8>::empty() + spec_paths_bytes(ps) =~= spec_paths_bytes(ps));
        }
        let mut i: usize = 0;
        while i < self.device_path_list.len()
            invariant
                0 <= i <= self.device_path_list@.len(),
                wf_load_option(self@),
                ps == paths_models(self.device_path_list@),
                section@ + spec_paths_bytes(ps.skip(i as int)) == spec_paths_bytes(ps),
            decreases self.device_path_list@.len() - i,
        {
            proof {
                assert(ps[i as int] == self.device_path_list@[i as int]@);
                assert(wf_path(ps[i as int]));
                assert(ps.skip(i as int)[0] == ps[i as int]);
                assert(ps.skip(i as int).drop_first() =~= ps.skip(i as int + 1));
            }
            let ghost section0 = section@;
            let mut pb = encode_device_path(&self.device_path_list[i]);
            section.append(&mut pb);
            proof {
                assert(section@ + spec_paths_bytes(ps.skip(i as int + 1)) =~= section0 + (
                spec_path_bytes(ps[i as int]) + spec_paths_bytes(ps.skip(i as int + 1))));
            }
            i = i + 1;
        }
        proof {
            assert(ps.skip(self.device_path_list@.len() as int) =~= Seq::<Seq<NodeModel>>::empty());
            assert(spec_paths_bytes(ps.skip(self.device_path_list@.len() as int)) =~= Seq::<
                u8,
            >::empty());
            assert(section@ =~= spec_paths_bytes(ps));
        }

        let mut out: Vec<u8> = Vec::new();
        push_u32_le(&mut out, self.attributes.0);
        proof {
            assert(out@ =~= u32_to_le(self@.attributes));
        }
        push_u16_le(&mut out, section.len() as u16);
        let ghost head = u32_to_le(self@.attributes) + u16_to_le(
            spec_paths_bytes(ps).len() as u16,
        );
        proof {
            assert(out@ =~= head);
            assert(head + Seq::<u8>::empty() =~= head);
            assert(self@.description.skip(0) =~= self@.description);
        }
        let ghost units = self@.description;
        let mut j: usize = 0;
        while j < self.description.len()
            invariant
                0 <= j <= self.description@.len(),
                units == self.description@,
                out@ + u16s_to_le(units.skip(j as int)) == head + u16s_to_le(units),
            decreases self.description@.len() - j,
        {
            proof {
                assert(units.skip(j as int)[0] == units[j as int]);
                assert(units.skip(j as int).drop_first() =~= units.skip(j as int + 1));
            }
            let ghost out0 = out@;
            push_u16_le(&mut out, self.description[j]);
            proof {
                assert(out@ + u16s_to_le(units.skip(j as int + 1)) =~= out0 + (u16_to_le(
                    units[j as int],
                ) + u16s_to_le(units.skip(j as int + 1))));
            }
            j = j + 1;
        }
        proof {
            assert(units.skip(units.len() as int) =~= Seq::<u16>::empty());
            assert(u16s_to_le(units.skip(units.len() as int)) =~= Seq::<u8>::empty());
            assert(out@ =~= head + u16s_to_le(units));
        }
        let ghost out1 = out@;
        push_u16_le(&mut out, 0);
        proof {
            assert(u16_to_le(0) =~= seq![0u8, 0u8]);
            assert(out@ =~= head + spec_description_bytes(units));
        }
        let ghost out2 = out@;
        out.append(&mut section);
        proof {
            assert(out@ =~= head + spec_description_bytes(units) + spec_paths_bytes(ps));
        }
        match &self.optional_data {
            Some(od) => {
                let ghost out3 = out@;
                proof {
                    assert(out3 + od@.subrange(0, 0) =~= out3);
                }
                let mut k: usize = 0;
                while k < od.len()
                    invariant
                        0 <= k <= od@.len(),
                        out@ == out3 + od@.subrange(0, k as int),
                    decreases od@.len() - k,
                {
                    out.push(od[k]);
                    assert(od@.subrange(0, k + 1) =~= od@.subrange(0, k as int).push(
                        od@[k as int]));
                    assert(out@ =~= out3 + od@.subrange(0, k + 1));
                    k = k + 1;
                }
                proof {
                    assert(od@.subrange(0, od@.len() as int) =~= od@);
                    assert(out@ =~= spec_encode_load_option(self@));
                }
            },
            None => {
                proof {
                    assert(out@ =~= spec_encode_load_option(self@));
                }
            },
        }
        out
    }
}

} // verus!
