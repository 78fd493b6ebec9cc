//! The manifest block: every vdisk, snapshot and lease, and the slice map
//! of a placed pool.

use super::entry::{byte_node, decode_node, encode_node, node_byte, NO_NODE};
use super::{Lease, SnapshotState, VdiskHead};
use crate::codec::{get_32, get_u32, get_u64, lemma_array_view_injective, push_bytes, put_u32, put_u64, same_bytes, zeros};
use crate::error::{FsError, Result};
use crate::format::{u32_at, u64_at};
use crate::hash::BlockHash;
use crate::map::{entry_bytes, hash_of_bytes, lemma_hash_of_bytes};
use crate::slice::{lists_homes, map_fault, Homes, NodeId, SliceMap, SLICES};
use crate::store::is_zero;
use crate::table::SnapshotId;
use vstd::bytes::*;
use vstd::prelude::*;

verus! {

/// `"LFSMAN\0\0"` as a little-endian word.
pub const MANIFEST_MAGIC: u64 = 0x0000_4E41_4D53_464C;

/// magic 8 + version 4 + three counts.
pub const MANIFEST_HEADER_LEN: usize = 24;

/// id 8 + size 8 + tier 1 + pad 7 + root 32.
pub const MANIFEST_ENTRY_LEN: usize = 56;

/// vdisk 8 + snapshot 8 + size 8 + root 32.
pub const MANIFEST_SNAPSHOT_LEN: usize = 56;

/// vdisk 8 + holder 1 + handing 1 + pad 6 + era 8.
pub const MANIFEST_LEASE_LEN: usize = 24;

/// The slice map: its version and 256 home pairs.
pub const MANIFEST_MAP_LEN: usize = 520;

/// A manifest without a map.
pub const MANIFEST_VERSION: u32 = 3;

/// A manifest with a map behind it.
pub const MANIFEST_VERSION_PLACED: u32 = 4;

/// What a manifest says, in order.
pub struct ManifestView {
    pub vdisks: Seq<(u64, VdiskHead)>,
    pub snapshots: Seq<(SnapshotId, SnapshotState)>,
    pub leases: Seq<(u64, Lease)>,
    pub map: Option<(u64, Seq<Homes>)>,
}

/// The root bytes stand for: all zeros is none.
pub open spec fn root_of(b: Seq<u8>) -> Option<BlockHash> {
    if b == zeros(32) {
        None
    } else {
        Some(hash_of_bytes(b))
    }
}

pub open spec fn vdisk_bytes(e: (u64, VdiskHead)) -> Seq<u8> {
    spec_u64_to_le_bytes(e.0) + spec_u64_to_le_bytes(e.1.size_bytes) + seq![e.1.tier] + zeros(7) + entry_bytes(
        e.1.root,
    )
}

pub open spec fn snapshot_bytes(e: (SnapshotId, SnapshotState)) -> Seq<u8> {
    spec_u64_to_le_bytes(e.0.vdisk) + spec_u64_to_le_bytes(e.0.snapshot) + spec_u64_to_le_bytes(e.1.size_bytes)
        + entry_bytes(e.1.root)
}

pub open spec fn lease_bytes(e: (u64, Lease)) -> Seq<u8> {
    spec_u64_to_le_bytes(e.0) + seq![e.1.holder, node_byte(e.1.handing_to)] + zeros(6) + spec_u64_to_le_bytes(e.1.era)
}

pub open spec fn vdisks_bytes(s: Seq<(u64, VdiskHead)>) -> Seq<u8>
    decreases s.len(),
{
    if s.len() == 0 {
        Seq::empty()
    } else {
        vdisks_bytes(s.drop_last()) + vdisk_bytes(s.last())
    }
}

pub open spec fn snapshots_bytes(s: Seq<(SnapshotId, SnapshotState)>) -> Seq<u8>
    decreases s.len(),
{
    if s.len() == 0 {
        Seq::empty()
    } else {
        snapshots_bytes(s.drop_last()) + snapshot_bytes(s.last())
    }
}

pub open spec fn leases_bytes(s: Seq<(u64, Lease)>) -> Seq<u8>
    decreases s.len(),
{
    if s.len() == 0 {
        Seq::empty()
    } else {
        leases_bytes(s.drop_last()) + lease_bytes(s.last())
    }
}

pub open spec fn homes_bytes(s: Seq<Homes>) -> Seq<u8>
    decreases s.len(),
{
    if s.len() == 0 {
        Seq::empty()
    } else {
        homes_bytes(s.drop_last()) + s.last()@
    }
}

pub open spec fn map_bytes(m: Option<(u64, Seq<Homes>)>) -> Seq<u8> {
    match m {
        Some((version, homes)) => spec_u64_to_le_bytes(version) + homes_bytes(homes),
        None => Seq::empty(),
    }
}

/// The counts a manifest opens with.
pub open spec fn manifest_head(m: ManifestView) -> Seq<u8> {
    spec_u64_to_le_bytes(MANIFEST_MAGIC) + spec_u32_to_le_bytes(
        if m.map is Some {
            MANIFEST_VERSION_PLACED
        } else {
            MANIFEST_VERSION
        },
    ) + spec_u32_to_le_bytes(m.vdisks.len() as u32) + spec_u32_to_le_bytes(m.snapshots.len() as u32)
        + spec_u32_to_le_bytes(m.leases.len() as u32)
}

/// A manifest's bytes.
pub open spec fn manifest_bytes(m: ManifestView) -> Seq<u8> {
    manifest_head(m) + vdisks_bytes(m.vdisks) + snapshots_bytes(m.snapshots) + leases_bytes(m.leases) + map_bytes(m.map)
}

fn put_root(buf: &mut Vec<u8>, root: Option<BlockHash>)
    ensures
        final(buf)@ == old(buf)@ + entry_bytes(root),
{
    match root {
        Some(h) => push_bytes(buf, h.0.as_slice()),
        None => {
            let blank = [0u8; 32];
            assert(blank@ =~= zeros(32));
            push_bytes(buf, blank.as_slice());
        },
    }
}

fn get_root(buf: &[u8], at: usize) -> (r: Option<BlockHash>)
    requires
        at + 32 <= buf@.len(),
    ensures
        r == root_of(buf@.subrange(at as int, at + 32)),
{
    let bytes = get_32(buf, at);
    let blank = [0u8; 32];
    assert(blank@ =~= zeros(32));
    if same_bytes(bytes.as_slice(), blank.as_slice()) {
        None
    } else {
        proof {
            lemma_hash_of_bytes(BlockHash(bytes));
        }
        Some(BlockHash(bytes))
    }
}

/// A manifest in the making or as read.
pub struct Manifest {
    pub vdisks: Vec<(u64, VdiskHead)>,
    pub snapshots: Vec<(SnapshotId, SnapshotState)>,
    pub leases: Vec<(u64, Lease)>,
    pub map: Option<SliceMap>,
}

impl Manifest {
    pub open spec fn view(&self) -> ManifestView {
        ManifestView {
            vdisks: self.vdisks@,
            snapshots: self.snapshots@,
            leases: self.leases@,
            map: match self.map {
                Some(map) => Some((map.at_version(), map.table())),
                None => None,
            },
        }
    }
}

pub fn encode_manifest(m: &Manifest) -> (buf: Vec<u8>)
    ensures
        buf@ == manifest_bytes(m@),
{
    let mut buf: Vec<u8> = Vec::new();
    put_u64(&mut buf, MANIFEST_MAGIC);
    assert(buf@ =~= spec_u64_to_le_bytes(MANIFEST_MAGIC));
    put_u32(
        &mut buf,
        if m.map.is_some() {
            MANIFEST_VERSION_PLACED
        } else {
            MANIFEST_VERSION
        },
    );
    put_u32(&mut buf, m.vdisks.len() as u32);
    put_u32(&mut buf, m.snapshots.len() as u32);
    put_u32(&mut buf, m.leases.len() as u32);
    let ghost head = buf@;
    assert(head == manifest_head(m@));
    let mut i: usize = 0;
    assert(m.vdisks@.subrange(0, 0) =~= Seq::<(u64, VdiskHead)>::empty());
    assert(buf@ =~= head + vdisks_bytes(m.vdisks@.subrange(0, 0)));
    while i < m.vdisks.len()
        invariant
            i <= m.vdisks@.len(),
            buf@ == head + vdisks_bytes(m.vdisks@.subrange(0, i as int)),
        decreases m.vdisks@.len() - i,
    {
        let (id, state) = m.vdisks[i];
        let ghost before = buf@;
        put_u64(&mut buf, id);
        put_u64(&mut buf, state.size_bytes);
        buf.push(state.tier);
        let pad = [0u8; 7];
        assert(pad@ =~= zeros(7));
        push_bytes(&mut buf, pad.as_slice());
        put_root(&mut buf, state.root);
        proof {
            assert(buf@ =~= before + vdisk_bytes((id, state)));
            let now = m.vdisks@.subrange(0, i + 1);
            assert(now.drop_last() =~= m.vdisks@.subrange(0, i as int));
            assert(buf@ =~= head + vdisks_bytes(now));
        }
        i += 1;
    }
    assert(m.vdisks@.subrange(0, i as int) =~= m.vdisks@);
    let ghost so_far = buf@;
    let mut i: usize = 0;
    assert(m.snapshots@.subrange(0, 0) =~= Seq::<(SnapshotId, SnapshotState)>::empty());
    assert(buf@ =~= so_far + snapshots_bytes(m.snapshots@.subrange(0, 0)));
    while i < m.snapshots.len()
        invariant
            i <= m.snapshots@.len(),
            buf@ == so_far + snapshots_bytes(m.snapshots@.subrange(0, i as int)),
        decreases m.snapshots@.len() - i,
    {
        let (key, state) = m.snapshots[i];
        let ghost before = buf@;
        put_u64(&mut buf, key.vdisk);
        put_u64(&mut buf, key.snapshot);
        put_u64(&mut buf, state.size_bytes);
        put_root(&mut buf, state.root);
        proof {
            assert(buf@ =~= before + snapshot_bytes((key, state)));
            let now = m.snapshots@.subrange(0, i + 1);
            assert(now.drop_last() =~= m.snapshots@.subrange(0, i as int));
            assert(buf@ =~= so_far + snapshots_bytes(now));
        }
        i += 1;
    }
    assert(m.snapshots@.subrange(0, i as int) =~= m.snapshots@);
    let ghost so_far = buf@;
    let mut i: usize = 0;
    assert(m.leases@.subrange(0, 0) =~= Seq::<(u64, Lease)>::empty());
    assert(buf@ =~= so_far + leases_bytes(m.leases@.subrange(0, 0)));
    while i < m.leases.len()
        invariant
            i <= m.leases@.len(),
            buf@ == so_far + leases_bytes(m.leases@.subrange(0, i as int)),
        decreases m.leases@.len() - i,
    {
        let (vdisk, lease) = m.leases[i];
        let ghost before = buf@;
        put_u64(&mut buf, vdisk);
        buf.push(lease.holder);
        buf.push(encode_node(lease.handing_to));
        let pad = [0u8; 6];
        assert(pad@ =~= zeros(6));
        push_bytes(&mut buf, pad.as_slice());
        put_u64(&mut buf, lease.era);
        proof {
            assert(buf@ =~= before + lease_bytes((vdisk, lease)));
            let now = m.leases@.subrange(0, i + 1);
            assert(now.drop_last() =~= m.leases@.subrange(0, i as int));
            assert(buf@ =~= so_far + leases_bytes(now));
        }
        i += 1;
    }
    assert(m.leases@.subrange(0, i as int) =~= m.leases@);
    let ghost so_far = buf@;
    if let Some(map) = &m.map {
        put_u64(&mut buf, map.version());
        let ghost so_far = buf@;
        let pairs = map.to_pairs();
        let mut i: usize = 0;
        assert(pairs@.subrange(0, 0) =~= Seq::<Homes>::empty());
        assert(buf@ =~= so_far + homes_bytes(pairs@.subrange(0, 0)));
        while i < pairs.len()
            invariant
                i <= pairs@.len(),
                buf@ == so_far + homes_bytes(pairs@.subrange(0, i as int)),
            decreases pairs@.len() - i,
        {
            let homes = pairs[i];
            let ghost before = buf@;
            buf.push(homes[0]);
            buf.push(homes[1]);
            proof {
                assert(buf@ =~= before + homes@);
                let now = pairs@.subrange(0, i + 1);
                assert(now.drop_last() =~= pairs@.subrange(0, i as int));
                assert(buf@ =~= so_far + homes_bytes(now));
            }
            i += 1;
        }
        assert(pairs@.subrange(0, i as int) =~= pairs@);
    }
    assert(buf@ =~= so_far + map_bytes(m@.map));
    buf
}

// ---------------------------------------------------------------------
// Reading

pub open spec fn vdisk_at(b: Seq<u8>, at: int) -> (u64, VdiskHead) {
    (
        u64_at(b, at),
        VdiskHead { size_bytes: u64_at(b, at + 8), tier: b[at + 16], root: root_of(b.subrange(at + 24, at + 56)) },
    )
}

pub open spec fn snapshot_at(b: Seq<u8>, at: int) -> (SnapshotId, SnapshotState) {
    (
        SnapshotId { vdisk: u64_at(b, at), snapshot: u64_at(b, at + 8) },
        SnapshotState { size_bytes: u64_at(b, at + 16), root: root_of(b.subrange(at + 24, at + 56)) },
    )
}

pub open spec fn lease_at(b: Seq<u8>, at: int) -> (u64, Lease) {
    (u64_at(b, at), Lease { holder: b[at + 8], handing_to: byte_node(b[at + 9]), era: u64_at(b, at + 16) })
}

/// The pair of homes at an offset.
pub open spec fn homes_at(b: Seq<u8>, at: int, homes: Homes) -> bool {
    homes@[0] == b[at] && homes@[1] == b[at + 1]
}

/// The three counts.
pub open spec fn counts(b: Seq<u8>) -> (int, int, int) {
    (u32_at(b, 12) as int, u32_at(b, 16) as int, u32_at(b, 20) as int)
}

/// Where the map starts.
pub open spec fn map_start(b: Seq<u8>) -> int {
    24 + 56 * counts(b).0 + 56 * counts(b).1 + 24 * counts(b).2
}

/// Why bytes are no manifest, if they are not; the map itself is judged
/// apart.
pub open spec fn manifest_fault(b: Seq<u8>) -> Option<FsError> {
    if b.len() < MANIFEST_HEADER_LEN || u64_at(b, 0) != MANIFEST_MAGIC {
        Some(FsError::Corrupt("the manifest block has the wrong shape"))
    } else if u32_at(b, 8) != MANIFEST_VERSION && u32_at(b, 8) != MANIFEST_VERSION_PLACED {
        Some(FsError::Corrupt("the manifest block is a version this build does not speak"))
    } else if b.len() < map_start(b) + if u32_at(b, 8) == MANIFEST_VERSION_PLACED {
        MANIFEST_MAP_LEN as int
    } else {
        0int
    } {
        Some(FsError::Corrupt("the manifest block is shorter than its counts"))
    } else {
        None
    }
}

/// `m` is what the bytes say.
pub open spec fn manifest_reads(b: Seq<u8>, m: ManifestView) -> bool {
    let (v, s, l) = counts(b);
    &&& m.vdisks == Seq::new(v as nat, |i: int| vdisk_at(b, 24 + 56 * i))
    &&& m.snapshots == Seq::new(s as nat, |i: int| snapshot_at(b, 24 + 56 * v + 56 * i))
    &&& m.leases == Seq::new(l as nat, |i: int| lease_at(b, 24 + 56 * v + 56 * s + 24 * i))
    &&& u32_at(b, 8) == MANIFEST_VERSION ==> m.map is None
    &&& u32_at(b, 8) == MANIFEST_VERSION_PLACED ==> map_reads(b, map_start(b), m.map)
}

/// The map is what the bytes at `at` say.
pub open spec fn map_reads(b: Seq<u8>, at: int, m: Option<(u64, Seq<Homes>)>) -> bool {
    m matches Some((version, homes)) && version == u64_at(b, at) && homes.len() == SLICES && forall|i: int|
        0 <= i < SLICES ==> homes_at(b, at + 8 + 2 * i, #[trigger] homes[i])
}

/// Bytes that decode as no manifest, with the error they give.
pub open spec fn manifest_unread(b: Seq<u8>, e: FsError) -> bool {
    ||| manifest_fault(b) == Some(e)
    ||| manifest_fault(b) is None && u32_at(b, 8) == MANIFEST_VERSION_PLACED && exists|homes: Seq<Homes>, named: Seq<NodeId>|
        #![trigger map_fault(homes, named)]
        map_reads(b, map_start(b), Some((u64_at(b, map_start(b)), homes))) && lists_homes(named, homes) && map_fault(homes, named) == Some(e)
}

pub fn decode_manifest(buf: &[u8]) -> (r: Result<Manifest>)
    ensures
        manifest_fault(buf@) matches Some(e) ==> r == Err::<Manifest, FsError>(e),
        manifest_fault(buf@) is None && u32_at(buf@, 8) == MANIFEST_VERSION ==> r is Ok,
        r is Err ==> manifest_unread(buf@, r->Err_0),
        r matches Ok(m) ==> manifest_reads(buf@, m@) && (m.map matches Some(map) ==> map.covers() && map.sound()),
{
    let len: usize = buf.len();
    if len < MANIFEST_HEADER_LEN || get_u64(buf, 0) != MANIFEST_MAGIC {
        return Err(FsError::Corrupt("the manifest block has the wrong shape"));
    }
    let version: u32 = get_u32(buf, 8);
    if version != MANIFEST_VERSION && version != MANIFEST_VERSION_PLACED {
        return Err(FsError::Corrupt("the manifest block is a version this build does not speak"));
    }
    let v: u64 = get_u32(buf, 12) as u64;
    let s: u64 = get_u32(buf, 16) as u64;
    let l: u64 = get_u32(buf, 20) as u64;
    let map_len: u64 = if version == MANIFEST_VERSION_PLACED {
        520
    } else {
        0
    };
    let need: u64 = 24 + 56 * v + 56 * s + 24 * l + map_len;
    if (len as u64) < need {
        return Err(FsError::Corrupt("the manifest block is shorter than its counts"));
    }
    let v: usize = v as usize;
    let s: usize = s as usize;
    let l: usize = l as usize;
    let ghost b = buf@;
    let mut vdisks: Vec<(u64, VdiskHead)> = Vec::new();
    let mut i: usize = 0;
    while i < v
        invariant
            b == buf@,
            b.len() == len,
            i <= v,
            24 + 56 * v <= len,
            vdisks@ == Seq::new(i as nat, |k: int| vdisk_at(b, 24 + 56 * k)),
        decreases v - i,
    {
        let at: usize = 24 + 56 * i;
        let head = VdiskHead { size_bytes: get_u64(buf, at + 8), tier: buf[at + 16], root: get_root(buf, at + 24) };
        vdisks.push((get_u64(buf, at), head));
        i += 1;
        assert(vdisks@ =~= Seq::new(i as nat, |k: int| vdisk_at(b, 24 + 56 * k)));
    }
    let mut snapshots: Vec<(SnapshotId, SnapshotState)> = Vec::new();
    let base: usize = 24 + 56 * v;
    let mut i: usize = 0;
    while i < s
        invariant
            b == buf@,
            b.len() == len,
            i <= s,
            base == 24 + 56 * v,
            base + 56 * s <= len,
            snapshots@ == Seq::new(i as nat, |k: int| snapshot_at(b, 24 + 56 * v + 56 * k)),
        decreases s - i,
    {
        let at: usize = base + 56 * i;
        let key = SnapshotId { vdisk: get_u64(buf, at), snapshot: get_u64(buf, at + 8) };
        let state = SnapshotState { size_bytes: get_u64(buf, at + 16), root: get_root(buf, at + 24) };
        snapshots.push((key, state));
        i += 1;
        assert(snapshots@ =~= Seq::new(i as nat, |k: int| snapshot_at(b, 24 + 56 * v + 56 * k)));
    }
    let mut leases: Vec<(u64, Lease)> = Vec::new();
    let base: usize = 24 + 56 * v + 56 * s;
    let mut i: usize = 0;
    while i < l
        invariant
            b == buf@,
            b.len() == len,
            i <= l,
            base == 24 + 56 * v + 56 * s,
            base + 24 * l <= len,
            leases@ == Seq::new(i as nat, |k: int| lease_at(b, 24 + 56 * v + 56 * s + 24 * k)),
        decreases l - i,
    {
        let at: usize = base + 24 * i;
        let lease = Lease { holder: buf[at + 8], handing_to: decode_node(buf[at + 9]), era: get_u64(buf, at + 16) };
        leases.push((get_u64(buf, at), lease));
        i += 1;
        assert(leases@ =~= Seq::new(i as nat, |k: int| lease_at(b, 24 + 56 * v + 56 * s + 24 * k)));
    }
    let map: Option<SliceMap> = if version == MANIFEST_VERSION_PLACED {
        let at: usize = base + 24 * l;
        assert(at == map_start(b));
        let map_version: u64 = get_u64(buf, at);
        let mut pairs: Vec<Homes> = Vec::new();
        let mut i: usize = 0;
        while i < SLICES
            invariant
                b == buf@,
                b.len() == len,
                i <= SLICES,
                at + 520 <= len,
                pairs@.len() == i,
                forall|k: int| 0 <= k < i ==> homes_at(b, at + 8 + 2 * k, #[trigger] pairs@[k]),
            decreases SLICES - i,
        {
            let pair: Homes = [buf[at + 8 + 2 * i], buf[at + 9 + 2 * i]];
            assert(pair@[0] == b[at + 8 + 2 * i] && pair@[1] == b[at + 9 + 2 * i]);
            pairs.push(pair);
            i += 1;
        }
        let ghost homes = pairs@;
        let probe = SliceMap::named_in(&pairs);
        match SliceMap::from_pairs(map_version, pairs) {
            Ok(map) => Some(map),
            Err(e) => {
                assert(map_reads(b, map_start(b), Some((u64_at(b, map_start(b)), homes))));
                assert(lists_homes(probe@, homes));
                assert(map_fault(homes, probe@) == Some(e));
                return Err(e);
            },
        }
    } else {
        None
    };
    Ok(Manifest { vdisks, snapshots, leases, map })
}

proof fn lemma_vdisks_layout(s: Seq<(u64, VdiskHead)>)
    requires
        forall|i: int| 0 <= i < s.len() ==> ((#[trigger] s[i]).1.root matches Some(h) ==> !is_zero(h)),
    ensures
        vdisks_bytes(s).len() == 56 * s.len(),
        forall|i: int| 0 <= i < s.len() ==> vdisk_at(vdisks_bytes(s), 56 * i) == #[trigger] s[i],
    decreases s.len(),
{
    if s.len() > 0 {
        let rest = s.drop_last();
        assert forall|i: int| 0 <= i < rest.len() implies ((#[trigger] rest[i]).1.root matches Some(h) ==> !is_zero(h)) by {
            assert(rest[i] == s[i]);
        }
        lemma_vdisks_layout(rest);
        lemma_auto_spec_u64_to_from_le_bytes();
        let b = vdisks_bytes(s);
        let p = vdisks_bytes(rest);
        let e = vdisk_bytes(s.last());
        assert(entry_bytes(s.last().1.root).len() == 32);
        assert(e.len() == 56);
        assert forall|i: int| 0 <= i < s.len() implies vdisk_at(b, 56 * i) == #[trigger] s[i] by {
            if i < rest.len() {
                assert(rest[i] == s[i]);
                assert(b.subrange(56 * i, 56 * i + 8) =~= p.subrange(56 * i, 56 * i + 8));
                assert(b.subrange(56 * i + 8, 56 * i + 16) =~= p.subrange(56 * i + 8, 56 * i + 16));
                assert(b.subrange(56 * i + 24, 56 * i + 56) =~= p.subrange(56 * i + 24, 56 * i + 56));
            } else {
                let last = s.last();
                assert(b.subrange(56 * i, 56 * i + 8) =~= spec_u64_to_le_bytes(last.0));
                assert(b.subrange(56 * i + 8, 56 * i + 16) =~= spec_u64_to_le_bytes(last.1.size_bytes));
                assert(b.subrange(56 * i + 24, 56 * i + 56) =~= entry_bytes(last.1.root));
                if let Some(h) = last.1.root {
                    lemma_hash_of_bytes(h);
                }
            }
        }
    }
}

proof fn lemma_snapshots_layout(s: Seq<(SnapshotId, SnapshotState)>)
    requires
        forall|i: int| 0 <= i < s.len() ==> ((#[trigger] s[i]).1.root matches Some(h) ==> !is_zero(h)),
    ensures
        snapshots_bytes(s).len() == 56 * s.len(),
        forall|i: int| 0 <= i < s.len() ==> snapshot_at(snapshots_bytes(s), 56 * i) == #[trigger] s[i],
    decreases s.len(),
{
    if s.len() > 0 {
        let rest = s.drop_last();
        assert forall|i: int| 0 <= i < rest.len() implies ((#[trigger] rest[i]).1.root matches Some(h) ==> !is_zero(h)) by {
            assert(rest[i] == s[i]);
        }
        lemma_snapshots_layout(rest);
        lemma_auto_spec_u64_to_from_le_bytes();
        let b = snapshots_bytes(s);
        let p = snapshots_bytes(rest);
        let e = snapshot_bytes(s.last());
        assert(entry_bytes(s.last().1.root).len() == 32);
        assert(e.len() == 56);
        assert forall|i: int| 0 <= i < s.len() implies snapshot_at(b, 56 * i) == #[trigger] s[i] by {
            if i < rest.len() {
                assert(rest[i] == s[i]);
                assert(b.subrange(56 * i, 56 * i + 8) =~= p.subrange(56 * i, 56 * i + 8));
                assert(b.subrange(56 * i + 8, 56 * i + 16) =~= p.subrange(56 * i + 8, 56 * i + 16));
                assert(b.subrange(56 * i + 16, 56 * i + 24) =~= p.subrange(56 * i + 16, 56 * i + 24));
                assert(b.subrange(56 * i + 24, 56 * i + 56) =~= p.subrange(56 * i + 24, 56 * i + 56));
            } else {
                let last = s.last();
                assert(b.subrange(56 * i, 56 * i + 8) =~= spec_u64_to_le_bytes(last.0.vdisk));
                assert(b.subrange(56 * i + 8, 56 * i + 16) =~= spec_u64_to_le_bytes(last.0.snapshot));
                assert(b.subrange(56 * i + 16, 56 * i + 24) =~= spec_u64_to_le_bytes(last.1.size_bytes));
                assert(b.subrange(56 * i + 24, 56 * i + 56) =~= entry_bytes(last.1.root));
                if let Some(h) = last.1.root {
                    lemma_hash_of_bytes(h);
                }
            }
        }
    }
}

proof fn lemma_leases_layout(s: Seq<(u64, Lease)>)
    requires
        forall|i: int| 0 <= i < s.len() ==> (#[trigger] s[i]).1.handing_to != Some(NO_NODE),
    ensures
        leases_bytes(s).len() == 24 * s.len(),
        forall|i: int| 0 <= i < s.len() ==> lease_at(leases_bytes(s), 24 * i) == #[trigger] s[i],
    decreases s.len(),
{
    if s.len() > 0 {
        let rest = s.drop_last();
        assert forall|i: int| 0 <= i < rest.len() implies (#[trigger] rest[i]).1.handing_to != Some(NO_NODE) by {
            assert(rest[i] == s[i]);
        }
        lemma_leases_layout(rest);
        lemma_auto_spec_u64_to_from_le_bytes();
        let b = leases_bytes(s);
        let p = leases_bytes(rest);
        assert(lease_bytes(s.last()).len() == 24);
        assert forall|i: int| 0 <= i < s.len() implies lease_at(b, 24 * i) == #[trigger] s[i] by {
            if i < rest.len() {
                assert(rest[i] == s[i]);
                assert(b.subrange(24 * i, 24 * i + 8) =~= p.subrange(24 * i, 24 * i + 8));
                assert(b.subrange(24 * i + 16, 24 * i + 24) =~= p.subrange(24 * i + 16, 24 * i + 24));
            } else {
                let last = s.last();
                assert(b.subrange(24 * i, 24 * i + 8) =~= spec_u64_to_le_bytes(last.0));
                assert(b.subrange(24 * i + 16, 24 * i + 24) =~= spec_u64_to_le_bytes(last.1.era));
            }
        }
    }
}

proof fn lemma_homes_layout(s: Seq<Homes>)
    ensures
        homes_bytes(s).len() == 2 * s.len(),
        forall|i: int| 0 <= i < s.len() ==> homes_at(homes_bytes(s), 2 * i, #[trigger] s[i]),
    decreases s.len(),
{
    if s.len() > 0 {
        let rest = s.drop_last();
        lemma_homes_layout(rest);
        assert forall|i: int| 0 <= i < s.len() implies homes_at(homes_bytes(s), 2 * i, #[trigger] s[i]) by {
            if i < rest.len() {
                assert(rest[i] == s[i]);
                assert(homes_at(homes_bytes(rest), 2 * i, rest[i]));
            }
        }
    }
}

/// A view that encodes without loss: counts that fit, roots that are not
/// all zeros, no handover to the number that stands for nobody, a map of
/// the right length.
pub open spec fn encodable(m: ManifestView) -> bool {
    &&& m.vdisks.len() <= u32::MAX
    &&& m.snapshots.len() <= u32::MAX
    &&& m.leases.len() <= u32::MAX
    &&& forall|i: int| 0 <= i < m.vdisks.len() ==> ((#[trigger] m.vdisks[i]).1.root matches Some(h) ==> !is_zero(h))
    &&& forall|i: int| 0 <= i < m.snapshots.len() ==> ((#[trigger] m.snapshots[i]).1.root matches Some(h) ==> !is_zero(h))
    &&& forall|i: int| 0 <= i < m.leases.len() ==> (#[trigger] m.leases[i]).1.handing_to != Some(NO_NODE)
    &&& m.map matches Some((_, homes)) ==> homes.len() == SLICES
}

/// The vdisks of a manifest, wherever they start.
proof fn lemma_vdisks_inside(b: Seq<u8>, at: int, s: Seq<(u64, VdiskHead)>)
    requires
        forall|i: int| 0 <= i < s.len() ==> ((#[trigger] s[i]).1.root matches Some(h) ==> !is_zero(h)),
        at >= 0,
        at + 56 * s.len() <= b.len(),
        forall|i: int| 0 <= i < 56 * s.len() ==> #[trigger] vdisks_bytes(s)[i] == b[at + i],
    ensures
        forall|i: int| 0 <= i < s.len() ==> vdisk_at(b, at + 56 * i) == #[trigger] s[i],
{
    lemma_vdisks_layout(s);
    let part = vdisks_bytes(s);
    assert forall|i: int| 0 <= i < s.len() implies vdisk_at(b, at + 56 * i) == #[trigger] s[i] by {
        assert(b.subrange(at + 56 * i + 0, at + 56 * i + 8) =~= part.subrange(56 * i + 0, 56 * i + 8));
        assert(b.subrange(at + 56 * i + 8, at + 56 * i + 16) =~= part.subrange(56 * i + 8, 56 * i + 16));
        assert(b.subrange(at + 56 * i + 24, at + 56 * i + 56) =~= part.subrange(56 * i + 24, 56 * i + 56));
        assert(b[at + 56 * i + 16] == part[56 * i + 16]);
        assert(vdisk_at(part, 56 * i) == s[i]);
    }
}

/// The snapshots of a manifest, wherever they start.
proof fn lemma_snapshots_inside(b: Seq<u8>, at: int, s: Seq<(SnapshotId, SnapshotState)>)
    requires
        forall|i: int| 0 <= i < s.len() ==> ((#[trigger] s[i]).1.root matches Some(h) ==> !is_zero(h)),
        at >= 0,
        at + 56 * s.len() <= b.len(),
        forall|i: int| 0 <= i < 56 * s.len() ==> #[trigger] snapshots_bytes(s)[i] == b[at + i],
    ensures
        forall|i: int| 0 <= i < s.len() ==> snapshot_at(b, at + 56 * i) == #[trigger] s[i],
{
    lemma_snapshots_layout(s);
    let part = snapshots_bytes(s);
    assert forall|i: int| 0 <= i < s.len() implies snapshot_at(b, at + 56 * i) == #[trigger] s[i] by {
        assert(b.subrange(at + 56 * i + 0, at + 56 * i + 8) =~= part.subrange(56 * i + 0, 56 * i + 8));
        assert(b.subrange(at + 56 * i + 8, at + 56 * i + 16) =~= part.subrange(56 * i + 8, 56 * i + 16));
        assert(b.subrange(at + 56 * i + 16, at + 56 * i + 24) =~= part.subrange(56 * i + 16, 56 * i + 24));
        assert(b.subrange(at + 56 * i + 24, at + 56 * i + 56) =~= part.subrange(56 * i + 24, 56 * i + 56));
        assert(snapshot_at(part, 56 * i) == s[i]);
    }
}

/// The leases of a manifest, wherever they start.
proof fn lemma_leases_inside(b: Seq<u8>, at: int, s: Seq<(u64, Lease)>)
    requires
        forall|i: int| 0 <= i < s.len() ==> (#[trigger] s[i]).1.handing_to != Some(NO_NODE),
        at >= 0,
        at + 24 * s.len() <= b.len(),
        forall|i: int| 0 <= i < 24 * s.len() ==> #[trigger] leases_bytes(s)[i] == b[at + i],
    ensures
        forall|i: int| 0 <= i < s.len() ==> lease_at(b, at + 24 * i) == #[trigger] s[i],
{
    lemma_leases_layout(s);
    let part = leases_bytes(s);
    assert forall|i: int| 0 <= i < s.len() implies lease_at(b, at + 24 * i) == #[trigger] s[i] by {
        assert(b.subrange(at + 24 * i + 0, at + 24 * i + 8) =~= part.subrange(24 * i + 0, 24 * i + 8));
        assert(b.subrange(at + 24 * i + 16, at + 24 * i + 24) =~= part.subrange(24 * i + 16, 24 * i + 24));
        assert(b[at + 24 * i + 8] == part[24 * i + 8]);
        assert(b[at + 24 * i + 9] == part[24 * i + 9]);
        assert(lease_at(part, 24 * i) == s[i]);
    }
}

/// What a manifest encodes to reads as the manifest.
pub proof fn lemma_manifest_layout(m: ManifestView)
    requires
        encodable(m),
    ensures
        manifest_fault(manifest_bytes(m)) is None,
        manifest_reads(manifest_bytes(m), m),
        counts(manifest_bytes(m)) == (m.vdisks.len() as int, m.snapshots.len() as int, m.leases.len() as int),
        u32_at(manifest_bytes(m), 8) == if m.map is Some { MANIFEST_VERSION_PLACED } else { MANIFEST_VERSION },
        manifest_bytes(m).len() == map_start(manifest_bytes(m)) + if m.map is Some { MANIFEST_MAP_LEN as int } else { 0int },
{
    lemma_auto_spec_u32_to_from_le_bytes();
    lemma_auto_spec_u64_to_from_le_bytes();
    lemma_vdisks_layout(m.vdisks);
    lemma_snapshots_layout(m.snapshots);
    lemma_leases_layout(m.leases);
    let b = manifest_bytes(m);
    let head = manifest_head(m);
    let vb = vdisks_bytes(m.vdisks);
    let sb = snapshots_bytes(m.snapshots);
    let lb = leases_bytes(m.leases);
    let mb = map_bytes(m.map);
    let (v, s, l) = (m.vdisks.len() as int, m.snapshots.len() as int, m.leases.len() as int);
    let version = if m.map is Some { MANIFEST_VERSION_PLACED } else { MANIFEST_VERSION };
    assert(head.len() == 24);
    assert(b.subrange(0, 8) =~= spec_u64_to_le_bytes(MANIFEST_MAGIC));
    assert(b.subrange(8, 12) =~= spec_u32_to_le_bytes(version));
    assert(b.subrange(12, 16) =~= spec_u32_to_le_bytes(v as u32));
    assert(b.subrange(16, 20) =~= spec_u32_to_le_bytes(s as u32));
    assert(b.subrange(20, 24) =~= spec_u32_to_le_bytes(l as u32));
    assert(counts(b) == (v, s, l));
    lemma_vdisks_inside(b, 24, m.vdisks);
    lemma_snapshots_inside(b, 24 + 56 * v, m.snapshots);
    lemma_leases_inside(b, 24 + 56 * v + 56 * s, m.leases);
    assert(Seq::new(v as nat, |i: int| vdisk_at(b, 24 + 56 * i)) =~= m.vdisks);
    assert(Seq::new(s as nat, |i: int| snapshot_at(b, 24 + 56 * v + 56 * i)) =~= m.snapshots);
    assert(Seq::new(l as nat, |i: int| lease_at(b, 24 + 56 * v + 56 * s + 24 * i)) =~= m.leases);
    let at = map_start(b);
    assert(at == 24 + vb.len() + sb.len() + lb.len());
    if let Some((mv, homes)) = m.map {
        lemma_homes_layout(homes);
        let hb = homes_bytes(homes);
        assert(b.subrange(at, at + 8) =~= spec_u64_to_le_bytes(mv));
        assert forall|i: int| 0 <= i < SLICES implies homes_at(b, at + 8 + 2 * i, #[trigger] homes[i]) by {
            assert(homes_at(hb, 2 * i, homes[i]));
            assert(b[at + 8 + 2 * i] == hb[2 * i]);
            assert(b[at + 8 + 2 * i + 1] == hb[2 * i + 1]);
        }
    }
}

/// What a manifest encodes to reads back as the same manifest.
pub proof fn law_manifest_round_trip(m: ManifestView, read: ManifestView)
    requires
        encodable(m),
        manifest_reads(manifest_bytes(m), read),
    ensures
        manifest_fault(manifest_bytes(m)) is None,
        read == m,
{
    lemma_manifest_layout(m);
    let b = manifest_bytes(m);
    assert(u32_at(b, 8) == MANIFEST_VERSION || u32_at(b, 8) == MANIFEST_VERSION_PLACED);
    if u32_at(b, 8) == MANIFEST_VERSION_PLACED {
        let at = map_start(b);
        let (homes, rh) = (m.map->Some_0.1, read.map->Some_0.1);
        assert forall|i: int| 0 <= i < SLICES implies rh[i] == homes[i] by {
            assert(homes_at(b, at + 8 + 2 * i, rh[i]));
            assert(homes_at(b, at + 8 + 2 * i, homes[i]));
            assert(rh[i]@ =~= homes[i]@);
            lemma_array_view_injective(rh[i], homes[i]);
        }
        assert(rh =~= homes);
    }
}

/// No manifest that was cut short is read: every proper prefix of a
/// manifest's bytes is refused as corrupt.
pub proof fn law_a_cut_manifest_is_refused(m: ManifestView, n: int)
    requires
        encodable(m),
        0 <= n < manifest_bytes(m).len(),
    ensures
        manifest_fault(manifest_bytes(m).subrange(0, n)) matches Some(e) && e is Corrupt,
{
    lemma_manifest_layout(m);
    let b = manifest_bytes(m);
    let c = b.subrange(0, n);
    if n >= 24 {
        assert(c.subrange(0, 8) =~= b.subrange(0, 8));
        assert(c.subrange(8, 12) =~= b.subrange(8, 12));
        assert(c.subrange(12, 16) =~= b.subrange(12, 16));
        assert(c.subrange(16, 20) =~= b.subrange(16, 20));
        assert(c.subrange(20, 24) =~= b.subrange(20, 24));
        assert(counts(c) == counts(b));
    }
}

/// A manifest with no map, or with one that keeps the rules, is read.
pub proof fn law_a_manifest_is_read(m: ManifestView, e: FsError)
    requires
        encodable(m),
        m.map matches Some((_, table)) ==> forall|members: Seq<NodeId>| #[trigger] lists_homes(members, table) ==> map_fault(table, members) is None,
    ensures
        !manifest_unread(manifest_bytes(m), e),
{
    lemma_manifest_layout(m);
    let b = manifest_bytes(m);
    if let Some((_, table)) = m.map {
        let at = map_start(b);
        assert forall|homes: Seq<Homes>, named: Seq<NodeId>|
            #![trigger map_fault(homes, named)]
            map_reads(b, at, Some((u64_at(b, at), homes))) && lists_homes(named, homes) implies map_fault(homes, named) is None by {
            assert forall|i: int| 0 <= i < SLICES implies homes[i] == table[i] by {
                assert(homes_at(b, at + 8 + 2 * i, homes[i]));
                assert(homes_at(b, at + 8 + 2 * i, table[i]));
                assert(homes[i]@ =~= table[i]@);
                lemma_array_view_injective(homes[i], table[i]);
            }
            assert(homes =~= table);
        }
    }
}

} // verus!
