//! A small store of packets, transforms and derived blocks.
//!
//! Packets are kept for good, as they came, with the acquisition epoch that they belong
//! to. Derived blocks are a cache: one that was not finished is dropped on recovery and
//! is never taken for a success.

use crate::db;
use crate::db::BlockStatus;
use crate::epoch;
use crate::epoch::EpochSplitter;
use crate::order;
use crate::order::Part;
use crate::rows;
use crate::scalar::Scalar;
use crate::text;
use crate::time;
use crate::time::Nanos;
use vstd::prelude::*;
use vstd::string::*;

verus! {

// ---- errors and units ---------------------------------------------------------------------

/// Why the store refuses something.
#[derive(Clone, Debug)]
pub enum StoreError {
    BadUnit(String),
    BadInput(String),
}

impl StoreError {
    /// The error in words.
    pub open spec fn words(self) -> Seq<char> {
        match self {
            StoreError::BadUnit(u) => "未知单位 '"@ + u@ + "'，支持: m, cm, mm, deg, rad"@,
            StoreError::BadInput(m) => "输入错误: "@ + m@,
        }
    }

    /// Whether the error is about a unit.
    pub open spec fn is_unit(self, unit: Seq<char>) -> bool {
        self matches StoreError::BadUnit(u) && u@ == unit
    }

    /// Whether the error has a message about the input.
    pub open spec fn is_input(self, message: Seq<char>) -> bool {
        self matches StoreError::BadInput(m) && m@ == message
    }

    /// The error in words.
    pub fn text(&self) -> (r: String)
        ensures
            r@ == self.words(),
    {
        match self {
            StoreError::BadUnit(u) => text::join3(
                "未知单位 '",
                u.as_str(),
                "'，支持: m, cm, mm, deg, rad",
            ),
            StoreError::BadInput(m) => text::join2("输入错误: ", m.as_str()),
        }
    }
}

/// Whether a unit is known.
pub open spec fn is_unit(unit: Seq<char>) -> bool {
    unit == "m"@ || unit == "cm"@ || unit == "mm"@ || unit == "deg"@ || unit == "rad"@
}

fn known_unit(unit: &str) -> (r: bool)
    ensures
        r == is_unit(unit@),
{
    text::same(unit, "m") || text::same(unit, "cm") || text::same(unit, "mm") || text::same(
        unit,
        "deg",
    ) || text::same(unit, "rad")
}

/// How many of a length unit make a metre.
pub open spec fn per_metre(unit: Seq<char>) -> Option<int> {
    if unit == "m"@ {
        Some(1)
    } else if unit == "cm"@ {
        Some(100)
    } else if unit == "mm"@ {
        Some(1_000)
    } else {
        None
    }
}

/// Metres in a length unit, as one over a number.
pub fn unit_to_meters(unit: &str) -> (r: Result<(u32, u32), StoreError>)
    ensures
        match r {
            Ok(f) => f.0 == 1 && per_metre(unit@) == Some(f.1 as int),
            Err(e) => per_metre(unit@) is None && e.is_unit(unit@),
        },
{
    if text::same(unit, "m") {
        Ok((1, 1))
    } else if text::same(unit, "cm") {
        Ok((1, 100))
    } else if text::same(unit, "mm") {
        Ok((1, 1_000))
    } else {
        Err(StoreError::BadUnit(unit.to_owned()))
    }
}

// ---- rows -----------------------------------------------------------------------------------

/// A packet as it came, with its epoch and its unwrapped time.
#[derive(Clone, Debug)]
pub struct Packet {
    pub id: i64,
    pub device: String,
    pub kind: String,
    pub seq: u64,
    pub t_raw: Nanos,
    pub frame: String,
    pub unit: String,
    pub summary: String,
    pub payload: String,
    pub epoch: u32,
    pub t: Nanos,
}

/// A version of a transform; an open side of its window is unbounded.
#[derive(Clone, Debug)]
pub struct Transform {
    pub src: String,
    pub dst: String,
    pub version: i64,
    pub rot: [Scalar; 4],
    pub trans: [Scalar; 3],
    pub cov: [Scalar; 36],
    pub valid_from: Option<Nanos>,
    pub valid_to: Option<Nanos>,
}

/// One step of a chain: a version of a transform, or a pose that was interpolated.
#[derive(Clone, Debug)]
pub struct ChainLink {
    pub edge: String,
    pub version: Option<i64>,
    pub valid_from: Option<Nanos>,
    pub valid_to: Option<Nanos>,
    pub source: Option<String>,
    pub epoch: Option<u32>,
}

/// The chain that a block's points went through.
#[derive(Clone, Debug)]
pub struct Chain {
    pub packet_id: i64,
    pub epoch: u32,
    pub t: Nanos,
    pub hops: Vec<ChainLink>,
    pub cov_trace_map: Scalar,
}

/// The derived points of one packet.
#[derive(Clone, Debug)]
pub struct Block {
    pub id: i64,
    pub packet_id: i64,
    pub status: BlockStatus,
    pub chain: Chain,
    pub points: Vec<[Scalar; 3]>,
    pub t: Nanos,
}

/// What a step of a chain stands for.
pub struct LinkValue {
    pub edge: Seq<char>,
    pub version: Option<i64>,
    pub valid_from: Option<Nanos>,
    pub valid_to: Option<Nanos>,
    pub source: Option<Seq<char>>,
    pub epoch: Option<u32>,
}

/// What a chain stands for.
pub struct ChainValue {
    pub packet_id: i64,
    pub epoch: u32,
    pub t: Nanos,
    pub hops: Seq<LinkValue>,
    pub cov_trace_map: Scalar,
}

impl View for ChainLink {
    type V = LinkValue;

    open spec fn view(&self) -> LinkValue {
        LinkValue {
            edge: self.edge@,
            version: self.version,
            valid_from: self.valid_from,
            valid_to: self.valid_to,
            source: match self.source {
                Some(s) => Some(s@),
                None => None,
            },
            epoch: self.epoch,
        }
    }
}

impl View for Chain {
    type V = ChainValue;

    open spec fn view(&self) -> ChainValue {
        ChainValue {
            packet_id: self.packet_id,
            epoch: self.epoch,
            t: self.t,
            hops: self.hops@.map_values(|h: ChainLink| h@),
            cov_trace_map: self.cov_trace_map,
        }
    }
}

// ---- epochs ---------------------------------------------------------------------------------

/// The most packets that a store takes, 2 to the power 27: that many times `RAISE_LIMIT`,
/// and a stamp on top, is within `SPAN_LIMIT`, so that no sum of times leaves the range of
/// the machine's widest integer.
pub const PACKET_LIMIT: usize = 0x800_0000;

/// The most that one packet raises the offset of its device by, 2 to the power 92: the
/// distance of two stamps, rounded up to whole weeks.
pub const RAISE_LIMIT: i128 = 4_951_760_157_141_521_099_596_496_896;

/// A splitter after one more packet.
pub open spec fn fed(s: EpochSplitter, seq: u64, t_raw: int) -> EpochSplitter {
    EpochSplitter {
        epoch: s.epoch_after(seq, t_raw) as u32,
        started: true,
        prev_seq: seq,
        prev_t: (t_raw + s.offset_after(seq, t_raw)) as i128,
        offset: s.offset_after(seq, t_raw) as i128,
    }
}

/// A splitter that nothing was fed to.
pub open spec fn idle() -> EpochSplitter {
    EpochSplitter { epoch: 0, started: false, prev_seq: 0, prev_t: 0, offset: 0 }
}

/// A device's splitter after those of the first `n` packets that are its own.
pub open spec fn replay(packets: Seq<Packet>, device: Seq<char>, n: int) -> EpochSplitter
    decreases n,
{
    if n <= 0 {
        idle()
    } else {
        let before = replay(packets, device, n - 1);
        let p = packets[n - 1];
        if p.device@ == device {
            fed(before, p.seq, p.t_raw as int)
        } else {
            before
        }
    }
}

proof fn lemma_replay_in_range(packets: Seq<Packet>, device: Seq<char>, n: int)
    requires
        0 <= n <= packets.len(),
        n <= PACKET_LIMIT,
        forall|i: int| 0 <= i < packets.len() ==> time::is_stamp((#[trigger] packets[i]).t_raw as int),
    ensures
        replay(packets, device, n).wf(),
        replay(packets, device, n).epoch <= n,
        0 <= replay(packets, device, n).offset <= n * RAISE_LIMIT,
    decreases n,
{
    if n > 0 {
        lemma_replay_in_range(packets, device, n - 1);
        let before = replay(packets, device, n - 1);
        let p = packets[n - 1];
        lemma_fed_in_range(before, p.seq, p.t_raw as int, n - 1);
        assert(n * RAISE_LIMIT == (n - 1) * RAISE_LIMIT + RAISE_LIMIT) by (nonlinear_arith);
    }
}

proof fn lemma_fed_in_range(s: EpochSplitter, seq: u64, t_raw: int, n: int)
    requires
        s.wf(),
        s.epoch <= n,
        0 <= s.offset <= n * RAISE_LIMIT,
        0 <= n < PACKET_LIMIT,
        time::is_stamp(t_raw),
    ensures
        0 <= s.epoch_after(seq, t_raw) <= n + 1,
        0 <= s.offset_after(seq, t_raw) <= n * RAISE_LIMIT + RAISE_LIMIT,
        s.offset_after(seq, t_raw) <= time::SPAN_LIMIT,
        fed(s, seq, t_raw).wf(),
        fed(s, seq, t_raw).epoch == s.epoch_after(seq, t_raw),
        fed(s, seq, t_raw).offset == s.offset_after(seq, t_raw),
        fed(s, seq, t_raw).prev_t == t_raw + s.offset_after(seq, t_raw),
{
    let dt = s.raw_step(t_raw);
    assert(n * RAISE_LIMIT + RAISE_LIMIT <= PACKET_LIMIT * RAISE_LIMIT) by (nonlinear_arith)
        requires
            0 <= n < PACKET_LIMIT,
    ;
    assert(PACKET_LIMIT * RAISE_LIMIT <= time::SPAN_LIMIT) by (nonlinear_arith);
    if s.started && dt < -epoch::LEAP_TOL {
        let weeks = epoch::nearest_weeks(-dt);
        assert(weeks * time::WEEK <= -dt + time::WEEK);
    }
}

// ---- the store --------------------------------------------------------------------------------

/// Packets in order of receipt, versions of transforms, and derived blocks.
#[derive(Clone, Debug)]
pub struct Store {
    pub packets: Vec<Packet>,
    pub transforms: Vec<Transform>,
    pub blocks: Vec<Block>,
    /// The id that was given to a block last.
    pub last_block_id: i64,
}

/// Whether a packet is of a kind that is known.
pub open spec fn is_kind(kind: Seq<char>) -> bool {
    kind == "lidar"@ || kind == "pose"@
}

/// Whether a packet's epoch and time are those that its device's splitter gives.
pub open spec fn is_stamped(packets: Seq<Packet>, i: int) -> bool {
    let p = packets[i];
    let s = replay(packets, p.device@, i);
    &&& p.epoch == s.epoch_after(p.seq, p.t_raw as int)
    &&& p.t == p.t_raw + s.offset_after(p.seq, p.t_raw as int)
}

impl Store {
    /// Packets are numbered from one and have the epochs that their devices' splitters
    /// give; no packet has two blocks, and blocks have ascending ids.
    pub open spec fn wf(self) -> bool {
        let packets = self.packets@;
        let blocks = self.blocks@;
        &&& packets.len() <= PACKET_LIMIT
        &&& forall|i: int|
            0 <= i < packets.len() ==> {
                &&& (#[trigger] packets[i]).id == i + 1
                &&& is_kind(packets[i].kind@)
                &&& is_unit(packets[i].unit@)
                &&& time::is_stamp(packets[i].t_raw as int)
                &&& is_stamped(packets, i)
            }
        &&& forall|i: int, j: int| #![trigger blocks[i], blocks[j]]
            0 <= i < j < blocks.len() ==> blocks[i].id < blocks[j].id && blocks[i].packet_id
                != blocks[j].packet_id
        &&& forall|i: int|
            0 <= i < blocks.len() ==> (#[trigger] blocks[i]).id <= self.last_block_id
        &&& 0 <= self.last_block_id
    }

    pub fn new() -> (r: Store)
        ensures
            r.wf(),
            r.packets@.len() == 0,
            r.transforms@.len() == 0,
            r.blocks@.len() == 0,
            r.last_block_id == 0,
    {
        Store {
            packets: Vec::new(),
            transforms: Vec::new(),
            blocks: Vec::new(),
            last_block_id: 0,
        }
    }
}

/// Every packet's unwrapped time is within the range that is handled.
pub proof fn lemma_times_in_range(s: Store)
    requires
        s.wf(),
    ensures
        forall|i: int| 0 <= i < s.packets@.len() ==> time::is_span((#[trigger] s.packets@[i]).t as int),
{
    let packets = s.packets@;
    assert forall|i: int| 0 <= i < packets.len() implies time::is_span(
        (#[trigger] packets[i]).t as int,
    ) by {
        let p = packets[i];
        let before = replay(packets, p.device@, i);
        lemma_replay_in_range(packets, p.device@, i);
        lemma_fed_in_range(before, p.seq, p.t_raw as int, i);
        assert(is_stamped(packets, i));
        assert(i * RAISE_LIMIT + RAISE_LIMIT <= PACKET_LIMIT * RAISE_LIMIT) by (nonlinear_arith)
            requires
                0 <= i < PACKET_LIMIT,
        ;
        assert(PACKET_LIMIT * RAISE_LIMIT + time::STAMP_LIMIT <= time::SPAN_LIMIT)
            by (nonlinear_arith);
    }
}

// ---- packets ----------------------------------------------------------------------------------

/// Whether a row is what is kept of a packet.
pub open spec fn is_row_of(
    row: Packet,
    id: int,
    s: EpochSplitter,
    device: Seq<char>,
    kind: Seq<char>,
    seq: u64,
    t_raw: Nanos,
    frame: Seq<char>,
    unit: Seq<char>,
    summary: Seq<char>,
    payload: Seq<char>,
) -> bool {
    &&& row.id == id
    &&& row.device@ == device
    &&& row.kind@ == kind
    &&& row.seq == seq
    &&& row.t_raw == t_raw
    &&& row.frame@ == frame
    &&& row.unit@ == unit
    &&& row.summary@ == summary
    &&& row.payload@ == payload
    &&& row.epoch == s.epoch_after(seq, t_raw as int)
    &&& row.t == t_raw + s.offset_after(seq, t_raw as int)
}

proof fn lemma_replay_prefix(a: Seq<Packet>, b: Seq<Packet>, device: Seq<char>, n: int)
    requires
        0 <= n <= a.len(),
        n <= b.len(),
        forall|i: int| 0 <= i < n ==> #[trigger] a[i] == b[i],
    ensures
        replay(a, device, n) == replay(b, device, n),
    decreases n,
{
    if n > 0 {
        lemma_replay_prefix(a, b, device, n - 1);
        assert(a[n - 1] == b[n - 1]);
    }
}

fn replayed(packets: &Vec<Packet>, device: &str) -> (r: EpochSplitter)
    requires
        packets@.len() <= PACKET_LIMIT,
        forall|i: int|
            0 <= i < packets@.len() ==> time::is_stamp((#[trigger] packets@[i]).t_raw as int),
    ensures
        r == replay(packets@, device@, packets@.len() as int),
{
    let mut s = EpochSplitter { epoch: 0, started: false, prev_seq: 0, prev_t: 0, offset: 0 };
    let mut i: usize = 0;
    while i < packets.len()
        invariant
            i <= packets@.len(),
            packets@.len() <= PACKET_LIMIT,
            forall|i: int|
                0 <= i < packets@.len() ==> time::is_stamp((#[trigger] packets@[i]).t_raw as int),
            s == replay(packets@, device@, i as int),
        decreases packets.len() - i,
    {
        let p = &packets[i];
        proof {
            lemma_replay_in_range(packets@, device@, i as int);
            lemma_fed_in_range(s, p.seq, p.t_raw as int, i as int);
        }
        if text::same(p.device.as_str(), device) {
            let _stamp = s.push(p.seq, p.t_raw);
        }
        i += 1;
    }
    s
}

fn copy_packet(p: &Packet) -> (r: Packet)
    ensures
        r == *p,
{
    Packet {
        id: p.id,
        device: p.device.clone(),
        kind: p.kind.clone(),
        seq: p.seq,
        t_raw: p.t_raw,
        frame: p.frame.clone(),
        unit: p.unit.clone(),
        summary: p.summary.clone(),
        payload: p.payload.clone(),
        epoch: p.epoch,
        t: p.t,
    }
}

/// Whether a packet is of the kind asked for, where one is.
pub open spec fn asked_for(packets: Seq<Packet>, kind: Option<Seq<char>>) -> spec_fn(int) -> bool {
    |i: int| kind is None || packets[i].kind@ == kind->0
}

impl Store {
    /// Takes a packet: it is kept as it came, with the epoch and the unwrapped time that
    /// follow from what its device sent before.
    pub fn ingest(
        &mut self,
        device: &str,
        kind: &str,
        seq: u64,
        t_raw: Nanos,
        frame: &str,
        unit: &str,
        summary: &str,
        payload: &str,
    ) -> (r: Result<Packet, StoreError>)
        requires
            old(self).wf(),
            old(self).packets@.len() < PACKET_LIMIT,
            time::is_stamp(t_raw as int),
        ensures
            final(self).wf(),
            final(self).transforms == old(self).transforms,
            final(self).blocks == old(self).blocks,
            final(self).last_block_id == old(self).last_block_id,
            match r {
                Err(e) => {
                    &&& final(self).packets == old(self).packets
                    &&& if !is_unit(unit@) {
                        e.is_unit(unit@)
                    } else {
                        !is_kind(kind@) && e.is_input("未知包类型 '"@ + kind@ + "'"@)
                    }
                },
                Ok(p) => {
                    &&& is_unit(unit@)
                    &&& is_kind(kind@)
                    &&& final(self).packets@ == old(self).packets@.push(p)
                    &&& is_row_of(
                        p,
                        old(self).packets@.len() as int + 1,
                        replay(old(self).packets@, device@, old(self).packets@.len() as int),
                        device@,
                        kind@,
                        seq,
                        t_raw,
                        frame@,
                        unit@,
                        summary@,
                        payload@,
                    )
                },
            },
    {
        if !known_unit(unit) {
            return Err(StoreError::BadUnit(unit.to_owned()));
        }
        if !text::same(kind, "lidar") && !text::same(kind, "pose") {
            return Err(
                StoreError::BadInput(text::join3("未知包类型 '", kind, "'")),
            );
        }
        let ghost before = self.packets@;
        let n: usize = self.packets.len();
        let mut s = replayed(&self.packets, device);
        proof {
            lemma_replay_in_range(before, device@, n as int);
            lemma_fed_in_range(s, seq, t_raw as int, n as int);
        }
        let stamp = s.push(seq, t_raw);
        let row = Packet {
            id: n as i64 + 1,
            device: device.to_owned(),
            kind: kind.to_owned(),
            seq,
            t_raw,
            frame: frame.to_owned(),
            unit: unit.to_owned(),
            summary: summary.to_owned(),
            payload: payload.to_owned(),
            epoch: stamp.epoch,
            t: stamp.t,
        };
        let copy = copy_packet(&row);
        self.packets.push(row);
        proof {
            let after = self.packets@;
            assert forall|i: int| 0 <= i < after.len() implies {
                &&& (#[trigger] after[i]).id == i + 1
                &&& is_kind(after[i].kind@)
                &&& is_unit(after[i].unit@)
                &&& time::is_stamp(after[i].t_raw as int)
                &&& is_stamped(after, i)
            } by {
                lemma_replay_prefix(before, after, after[i].device@, i);
                if i < before.len() {
                    assert(after[i] == before[i]);
                    assert(is_stamped(before, i));
                }
            }
        }
        Ok(copy)
    }

    /// Lists packets in order of receipt, all or those of one kind.
    pub fn packets(&self, kind: Option<&str>) -> (r: Vec<Packet>)
        ensures
            ({
                let k = match kind {
                    Some(s) => Some(s@),
                    None => None,
                };
                r@ == rows::all_where(
                    self.packets@.len() as int,
                    asked_for(self.packets@, k),
                ).map_values(|i: int| self.packets@[i])
            }),
    {
        let ghost k = match kind {
            Some(s) => Some(s@),
            None => None,
        };
        let ghost holds = asked_for(self.packets@, k);
        let ghost pick = |i: int| self.packets@[i];
        let mut out: Vec<Packet> = Vec::new();
        let mut i: usize = 0;
        assert(out@ =~= rows::all_where(0, holds).map_values(pick));
        while i < self.packets.len()
            invariant
                i <= self.packets@.len(),
                k == match kind {
                    Some(s) => Some(s@),
                    None => None,
                },
                holds == asked_for(self.packets@, k),
                pick == (|i: int| self.packets@[i]),
                out@ == rows::all_where(i as int, holds).map_values(pick),
            decreases self.packets.len() - i,
        {
            let wanted = match kind {
                Some(s) => text::same(self.packets[i].kind.as_str(), s),
                None => true,
            };
            assert(wanted == holds(i as int));
            let ghost before = out@;
            if wanted {
                out.push(copy_packet(&self.packets[i]));
                assert(rows::all_where(i + 1, holds).map_values(pick) =~= before.push(
                    self.packets@[i as int],
                ));
            }
            i += 1;
        }
        out
    }
}

/// Epochs of one device never go back, nor does unwrapped time within one.
pub proof fn law_epochs_of_a_device_never_go_back(s: Store, i: int, j: int)
    requires
        s.wf(),
        0 <= i <= j < s.packets@.len(),
        s.packets@[i].device@ == s.packets@[j].device@,
    ensures
        s.packets@[i].epoch <= s.packets@[j].epoch,
        s.packets@[i].epoch == s.packets@[j].epoch ==> s.packets@[i].t <= s.packets@[j].t,
{
    let packets = s.packets@;
    let device = packets[j].device@;
    if i < j {
        lemma_epochs_go_on(packets, device, i, j);
        lemma_replay_in_range(packets, device, j);
        lemma_fed_in_range(replay(packets, device, j), packets[j].seq, packets[j].t_raw as int, j);
        assert(is_stamped(packets, j));
        assert(is_stamped(packets, i));
    }
}

proof fn lemma_epochs_go_on(packets: Seq<Packet>, device: Seq<char>, i: int, n: int)
    requires
        0 <= i < n <= packets.len(),
        n <= PACKET_LIMIT,
        forall|k: int| 0 <= k < packets.len() ==> time::is_stamp((#[trigger] packets[k]).t_raw as int),
        packets[i].device@ == device,
        is_stamped(packets, i),
    ensures
        replay(packets, device, n).started,
        replay(packets, device, n).epoch >= packets[i].epoch,
        replay(packets, device, n).epoch == packets[i].epoch ==> replay(packets, device, n).prev_t
            >= packets[i].t,
    decreases n,
{
    lemma_replay_in_range(packets, device, n - 1);
    let p = packets[n - 1];
    lemma_fed_in_range(replay(packets, device, n - 1), p.seq, p.t_raw as int, n - 1);
    if i < n - 1 {
        lemma_epochs_go_on(packets, device, i, n - 1);
    }
}

// ---- recovery ---------------------------------------------------------------------------------

/// The blocks that were finished.
pub open spec fn finished(blocks: Seq<Block>) -> Seq<Block> {
    blocks.filter(|b: Block| b.status is Complete)
}

/// The blocks other than that of a packet.
pub open spec fn others(blocks: Seq<Block>, packet_id: i64) -> Seq<Block> {
    blocks.filter(|b: Block| b.packet_id != packet_id)
}

/// Whether a block has a step of its chain along an edge.
pub open spec fn goes_along(b: Block, edge: Seq<char>) -> bool {
    exists|k: int| 0 <= k < b.chain.hops@.len() && (#[trigger] b.chain.hops@[k]).edge@ == edge
}

/// Whether a finished block lies in a span of time, ends included, and has a step of its
/// chain along an edge.
pub open spec fn outdated(b: Block, edge: Seq<char>, from: Option<Nanos>, to: Option<Nanos>) -> bool {
    &&& b.status is Complete
    &&& from is None || b.t >= from->0
    &&& to is None || b.t <= to->0
    &&& goes_along(b, edge)
}

/// The blocks that are not outdated.
pub open spec fn current(
    blocks: Seq<Block>,
    edge: Seq<char>,
    from: Option<Nanos>,
    to: Option<Nanos>,
) -> Seq<Block> {
    blocks.filter(|b: Block| !outdated(b, edge, from, to))
}

/// The name of the edge between two frames.
pub open spec fn edge_name(src: Seq<char>, dst: Seq<char>) -> Seq<char> {
    src + "->"@ + dst
}

proof fn lemma_filtered_wf(s: Store, after: Store, holds: spec_fn(Block) -> bool)
    requires
        s.wf(),
        after.packets == s.packets,
        after.last_block_id == s.last_block_id,
        after.blocks@ == s.blocks@.filter(holds),
    ensures
        after.wf(),
        after.blocks@.len() <= s.blocks@.len(),
        forall|i: int|
            0 <= i < after.blocks@.len() ==> holds(#[trigger] after.blocks@[i])
                && s.blocks@.contains(after.blocks@[i]),
        forall|b: Block| s.blocks@.contains(b) && holds(b) ==> after.blocks@.contains(b),
{
    db::lemma_filter_keeps_order(
        s.blocks@,
        holds,
        |a: Block, b: Block| a.id < b.id && a.packet_id != b.packet_id,
    );
    assert forall|i: int| 0 <= i < after.blocks@.len() implies (#[trigger] after.blocks@[i]).id
        <= after.last_block_id by {
        assert(s.blocks@.contains(after.blocks@[i]));
    }
}

fn has_edge(b: &Block, edge: &str) -> (r: bool)
    ensures
        r == goes_along(*b, edge@),
{
    let mut k: usize = 0;
    while k < b.chain.hops.len()
        invariant
            k <= b.chain.hops@.len(),
            forall|j: int| 0 <= j < k ==> (#[trigger] b.chain.hops@[j]).edge@ != edge@,
        decreases b.chain.hops.len() - k,
    {
        if text::same(b.chain.hops[k].edge.as_str(), edge) {
            assert(b.chain.hops@[k as int].edge@ == edge@);
            return true;
        }
        k += 1;
    }
    false
}

impl Store {
    /// Whether only the blocks differ.
    pub open spec fn same_facts(self, other: Store) -> bool {
        &&& self.packets == other.packets
        &&& self.transforms == other.transforms
    }

    /// Recovers from an interruption: half blocks are dropped. Tells how many there were.
    pub fn recover(&mut self) -> (r: usize)
        requires
            old(self).wf(),
        ensures
            final(self).wf(),
            final(self).same_facts(*old(self)),
            final(self).last_block_id == old(self).last_block_id,
            final(self).blocks@ == finished(old(self).blocks@),
            r == old(self).blocks@.len() - final(self).blocks@.len(),
    {
        let ghost before = *self;
        let ghost holds = |b: Block| b.status is Complete;
        let n: usize = self.blocks.len();
        let mut keep: Vec<bool> = Vec::new();
        let mut i: usize = 0;
        while i < n
            invariant
                i <= n,
                n == self.blocks@.len(),
                keep@.len() == i,
                forall|k: int|
                    0 <= k < i ==> #[trigger] keep@[k] == self.blocks@[k].status is Complete,
            decreases n - i,
        {
            keep.push(self.blocks[i].status == BlockStatus::Complete);
            i += 1;
        }
        proof {
            rows::lemma_kept_by(self.blocks@, keep@, holds);
        }
        rows::retain(&mut self.blocks, &keep);
        proof {
            lemma_filtered_wf(before, *self, holds);
        }
        n - self.blocks.len()
    }

    /// Drops the finished blocks in a span of time, ends included, whose chains go along
    /// the edge between two frames. Tells how many there were.
    pub fn invalidate_blocks(
        &mut self,
        src: &str,
        dst: &str,
        from: Option<Nanos>,
        to: Option<Nanos>,
    ) -> (r: usize)
        requires
            old(self).wf(),
        ensures
            final(self).wf(),
            final(self).same_facts(*old(self)),
            final(self).last_block_id == old(self).last_block_id,
            final(self).blocks@ == current(old(self).blocks@, edge_name(src@, dst@), from, to),
            r == old(self).blocks@.len() - final(self).blocks@.len(),
    {
        let ghost before = *self;
        let edge = text::join3(src, "->", dst);
        let ghost holds = |b: Block| !outdated(b, edge_name(src@, dst@), from, to);
        let n: usize = self.blocks.len();
        let mut keep: Vec<bool> = Vec::new();
        let mut i: usize = 0;
        while i < n
            invariant
                i <= n,
                n == self.blocks@.len(),
                edge@ == edge_name(src@, dst@),
                holds == (|b: Block| !outdated(b, edge_name(src@, dst@), from, to)),
                keep@.len() == i,
                forall|k: int| 0 <= k < i ==> #[trigger] keep@[k] == holds(self.blocks@[k]),
            decreases n - i,
        {
            let b = &self.blocks[i];
            let after = match from {
                Some(t) => b.t >= t,
                None => true,
            };
            let before_end = match to {
                Some(t) => b.t <= t,
                None => true,
            };
            let along = has_edge(b, edge.as_str());
            keep.push(!(b.status == BlockStatus::Complete && after && before_end && along));
            i += 1;
        }
        proof {
            rows::lemma_kept_by(self.blocks@, keep@, holds);
        }
        rows::retain(&mut self.blocks, &keep);
        proof {
            lemma_filtered_wf(before, *self, holds);
        }
        n - self.blocks.len()
    }

    /// Stores the finished block of a packet in place of the one that was there.
    pub fn write_block(&mut self, packet_id: i64, t: Nanos, chain: Chain, points: Vec<[Scalar; 3]>)
        requires
            old(self).wf(),
            old(self).last_block_id < i64::MAX,
        ensures
            final(self).wf(),
            final(self).same_facts(*old(self)),
            final(self).last_block_id == old(self).last_block_id + 1,
            final(self).blocks@ == others(old(self).blocks@, packet_id).push(
                Block {
                    id: (old(self).last_block_id + 1) as i64,
                    packet_id,
                    status: BlockStatus::Complete,
                    chain,
                    points,
                    t,
                },
            ),
    {
        let ghost before = *self;
        let ghost holds = |b: Block| b.packet_id != packet_id;
        let n: usize = self.blocks.len();
        let mut keep: Vec<bool> = Vec::new();
        let mut i: usize = 0;
        while i < n
            invariant
                i <= n,
                n == self.blocks@.len(),
                keep@.len() == i,
                forall|k: int|
                    0 <= k < i ==> #[trigger] keep@[k] == (self.blocks@[k].packet_id != packet_id),
            decreases n - i,
        {
            keep.push(self.blocks[i].packet_id != packet_id);
            i += 1;
        }
        proof {
            rows::lemma_kept_by(self.blocks@, keep@, holds);
        }
        rows::retain(&mut self.blocks, &keep);
        proof {
            lemma_filtered_wf(before, *self, holds);
        }
        self.last_block_id = self.last_block_id + 1;
        self.blocks.push(
            Block {
                id: self.last_block_id,
                packet_id,
                status: BlockStatus::Complete,
                chain,
                points,
                t,
            },
        );
    }

    /// Whether a packet has a finished block.
    pub open spec fn is_done(self, packet_id: i64) -> bool {
        exists|i: int|
            0 <= i < self.blocks@.len() && (#[trigger] self.blocks@[i]).packet_id == packet_id
                && self.blocks@[i].status is Complete
    }

    /// Whether a packet has a finished block.
    pub fn has_block(&self, packet_id: i64) -> (r: bool)
        ensures
            r == self.is_done(packet_id),
    {
        let mut i: usize = 0;
        while i < self.blocks.len()
            invariant
                i <= self.blocks@.len(),
                forall|k: int|
                    0 <= k < i ==> !((#[trigger] self.blocks@[k]).packet_id == packet_id
                        && self.blocks@[k].status is Complete),
            decreases self.blocks.len() - i,
        {
            if self.blocks[i].packet_id == packet_id && self.blocks[i].status
                == BlockStatus::Complete {
                assert(self.blocks@[i as int].packet_id == packet_id);
                return true;
            }
            i += 1;
        }
        false
    }
}

/// After recovery no half block is left, and every finished block is.
pub proof fn law_recovery_leaves_finished_blocks_only(blocks: Seq<Block>)
    ensures
        forall|i: int|
            0 <= i < finished(blocks).len() ==> (#[trigger] finished(blocks)[i]).status is Complete,
        forall|b: Block| #[trigger]
            finished(blocks).contains(b) <==> blocks.contains(b) && b.status is Complete,
{
    let holds = |b: Block| b.status is Complete;
    db::lemma_filter_keeps_order(blocks, holds, |a: Block, b: Block| true);
    assert forall|b: Block| blocks.contains(b) && b.status is Complete implies #[trigger] finished(
        blocks,
    ).contains(b) by {
        assert(holds(b));
    }
}

/// A revision drops only finished blocks in its span of time whose chains go along its
/// edge; every other block stays.
pub proof fn law_revision_drops_only_what_it_covers(
    blocks: Seq<Block>,
    edge: Seq<char>,
    from: Option<Nanos>,
    to: Option<Nanos>,
)
    ensures
        forall|b: Block| #[trigger]
            current(blocks, edge, from, to).contains(b) <==> blocks.contains(b) && !outdated(
                b,
                edge,
                from,
                to,
            ),
{
    let holds = |b: Block| !outdated(b, edge, from, to);
    db::lemma_filter_keeps_order(blocks, holds, |a: Block, b: Block| true);
    assert forall|b: Block|
        blocks.contains(b) && !outdated(b, edge, from, to) implies #[trigger] current(
        blocks,
        edge,
        from,
        to,
    ).contains(b) by {
        assert(holds(b));
    }
}

// ---- listing blocks -----------------------------------------------------------------------------

/// Whether a block was finished.
pub open spec fn is_finished(blocks: Seq<Block>) -> spec_fn(int) -> bool {
    |i: int| blocks[i].status is Complete
}

/// Some blocks, by position, in order of two numbers each.
pub open spec fn arranged(
    blocks: Seq<Block>,
    at: Seq<int>,
    key: spec_fn(Block) -> Seq<order::PartValue>,
) -> Seq<int> {
    order::order_of(at.map_values(|i: int| key(blocks[i]))).map_values(|k: int| at[k])
}

/// The finished blocks, by position, in order of time and id.
pub open spec fn listed(blocks: Seq<Block>) -> Seq<int> {
    arranged(
        blocks,
        rows::all_where(blocks.len() as int, is_finished(blocks)),
        |b: Block| order::pair_key(b.t as int, b.id as int),
    )
}

fn finished_positions(blocks: &Vec<Block>) -> (r: Vec<usize>)
    ensures
        order::positions(r@) == rows::all_where(blocks@.len() as int, is_finished(blocks@)),
        forall|i: int| 0 <= i < r@.len() ==> #[trigger] r@[i] < blocks@.len(),
{
    let ghost holds = is_finished(blocks@);
    let mut out: Vec<usize> = Vec::new();
    let mut i: usize = 0;
    assert(order::positions(out@) =~= rows::all_where(0, holds));
    while i < blocks.len()
        invariant
            i <= blocks@.len(),
            holds == is_finished(blocks@),
            order::positions(out@) == rows::all_where(i as int, holds),
            forall|k: int| 0 <= k < out@.len() ==> #[trigger] out@[k] < blocks@.len(),
        decreases blocks.len() - i,
    {
        let ghost before = order::positions(out@);
        if blocks[i].status == BlockStatus::Complete {
            assert(holds(i as int));
            out.push(i);
            assert(order::positions(out@) =~= before.push(i as int));
        } else {
            assert(!holds(i as int));
        }
        i += 1;
    }
    out
}

impl Store {
    /// Lists the finished blocks in order of time.
    pub fn blocks(&self) -> (r: Vec<&Block>)
        ensures
            r@.len() == listed(self.blocks@).len(),
            forall|i: int|
                0 <= i < r@.len() ==> *#[trigger] r@[i] == self.blocks@[listed(self.blocks@)[i]],
    {
        let at = finished_positions(&self.blocks);
        let ghost av = order::positions(at@);
        let ghost key = |b: Block| order::pair_key(b.t as int, b.id as int);
        let mut pairs: Vec<(i128, i128)> = Vec::new();
        let mut i: usize = 0;
        while i < at.len()
            invariant
                i <= at@.len(),
                av == order::positions(at@),
                forall|k: int| 0 <= k < at@.len() ==> #[trigger] at@[k] < self.blocks@.len(),
                pairs@.len() == i,
                forall|k: int|
                    0 <= k < i ==> #[trigger] pairs@[k] == (
                        self.blocks@[av[k]].t,
                        self.blocks@[av[k]].id as i128,
                    ),
            decreases at.len() - i,
        {
            let b = &self.blocks[at[i]];
            pairs.push((b.t, b.id as i128));
            i += 1;
        }
        assert(order::pair_keys(pairs@) =~= av.map_values(|i: int| key(self.blocks@[i])));
        let o = order::order_by_pairs(&pairs);
        let ghost ov = order::positions(o@);
        let ghost want = ov.map_values(|k: int| av[k]);
        assert(want == listed(self.blocks@)) by {
            assert(ov == order::order_of(av.map_values(|i: int| key(self.blocks@[i]))));
        }
        let mut out: Vec<&Block> = Vec::new();
        let mut k: usize = 0;
        while k < o.len()
            invariant
                k <= o@.len(),
                o@.len() == at@.len(),
                ov == order::positions(o@),
                av == order::positions(at@),
                want == ov.map_values(|k: int| av[k]),
                forall|k: int| 0 <= k < at@.len() ==> #[trigger] at@[k] < self.blocks@.len(),
                forall|k: int| 0 <= k < o@.len() ==> #[trigger] o@[k] < at@.len(),
                out@.len() == k,
                forall|j: int| 0 <= j < k ==> *#[trigger] out@[j] == self.blocks@[want[j]],
            decreases o.len() - k,
        {
            out.push(&self.blocks[at[o[k]]]);
            k += 1;
        }
        out
    }

    /// The finished block with an id.
    pub fn block_by_id(&self, id: i64) -> (r: Option<&Block>)
        ensures
            match r {
                Some(b) => b.id == id && b.status is Complete && self.blocks@.contains(*b),
                None => forall|i: int|
                    0 <= i < self.blocks@.len() && (#[trigger] self.blocks@[i]).status is Complete
                        ==> self.blocks@[i].id != id,
            },
    {
        let mut i: usize = 0;
        while i < self.blocks.len()
            invariant
                i <= self.blocks@.len(),
                forall|k: int|
                    0 <= k < i && (#[trigger] self.blocks@[k]).status is Complete
                        ==> self.blocks@[k].id != id,
            decreases self.blocks.len() - i,
        {
            if self.blocks[i].id == id && self.blocks[i].status == BlockStatus::Complete {
                assert(self.blocks@.contains(self.blocks@[i as int]));
                return Some(&self.blocks[i]);
            }
            i += 1;
        }
        None
    }

    /// The ids of the packets that have a finished block, ascending.
    pub fn complete_block_packet_ids(&self) -> (r: Vec<i64>)
        requires
            self.wf(),
        ensures
            forall|i: int, j: int| #![trigger r@[i], r@[j]] 0 <= i < j < r@.len() ==> r@[i] < r@[j],
            forall|id: i64| #[trigger] r@.contains(id) <==> self.is_done(id),
    {
        let at = finished_positions(&self.blocks);
        let ghost av = order::positions(at@);
        let ghost holds = is_finished(self.blocks@);
        let mut pairs: Vec<(i128, i128)> = Vec::new();
        let mut i: usize = 0;
        while i < at.len()
            invariant
                i <= at@.len(),
                av == order::positions(at@),
                forall|k: int| 0 <= k < at@.len() ==> #[trigger] at@[k] < self.blocks@.len(),
                pairs@.len() == i,
                forall|k: int|
                    0 <= k < i ==> #[trigger] pairs@[k] == (
                        self.blocks@[av[k]].packet_id as i128,
                        0i128,
                    ),
            decreases at.len() - i,
        {
            pairs.push((self.blocks[at[i]].packet_id as i128, 0));
            i += 1;
        }
        let ghost keys = order::pair_keys(pairs@);
        let o = order::order_by_pairs(&pairs);
        let ghost ov = order::positions(o@);
        let mut out: Vec<i64> = Vec::new();
        let mut k: usize = 0;
        while k < o.len()
            invariant
                k <= o@.len(),
                o@.len() == at@.len(),
                ov == order::positions(o@),
                av == order::positions(at@),
                forall|k: int| 0 <= k < at@.len() ==> #[trigger] at@[k] < self.blocks@.len(),
                forall|k: int| 0 <= k < o@.len() ==> #[trigger] o@[k] < at@.len(),
                out@.len() == k,
                forall|j: int|
                    0 <= j < k ==> #[trigger] out@[j] == self.blocks@[av[ov[j]]].packet_id,
            decreases o.len() - k,
        {
            out.push(self.blocks[at[o[k]]].packet_id);
            k += 1;
        }
        proof {
            order::law_order_is_unique(keys, ov);
            rows::lemma_all_where(self.blocks@.len() as int, holds);
            assert forall|i: int, j: int| #![trigger out@[i], out@[j]]
                0 <= i < j < out@.len() implies out@[i] < out@[j] by {
                let a = self.blocks@[av[ov[i]]];
                let b = self.blocks@[av[ov[j]]];
                assert(order::precedes(keys, ov[i], ov[j]));
                order::law_key_order_is_strict_and_total(
                    keys[ov[i]],
                    keys[ov[j]],
                    keys[ov[i]],
                );
                assert(ov[i] != ov[j]);
                order::lemma_pair_key_before(a.packet_id as int, 0, b.packet_id as int, 0);
                assert(av[ov[i]] != av[ov[j]]);
                assert(a.packet_id != b.packet_id);
            }
            assert forall|id: i64| #[trigger] out@.contains(id) <==> self.is_done(id) by {
                if out@.contains(id) {
                    let j = choose|j: int| 0 <= j < out@.len() && out@[j] == id;
                    let x = av[ov[j]];
                    assert(holds(x));
                    assert(self.blocks@[x].packet_id == id);
                }
                if self.is_done(id) {
                    let x = choose|x: int|
                        0 <= x < self.blocks@.len() && (#[trigger] self.blocks@[x]).packet_id == id
                            && self.blocks@[x].status is Complete;
                    assert(holds(x));
                    assert(av.contains(x));
                    let m = choose|m: int| 0 <= m < av.len() && av[m] == x;
                    assert(ov.contains(m));
                    let j = choose|j: int| 0 <= j < ov.len() && ov[j] == m;
                    assert(out@[j] == id);
                }
            }
        }
        out
    }
}

// ---- transforms ---------------------------------------------------------------------------------

/// The highest version of a pair of frames among the first `n` transforms, or zero.
pub open spec fn top_version(ts: Seq<Transform>, src: Seq<char>, dst: Seq<char>, n: int) -> int
    decreases n,
{
    if n <= 0 {
        0
    } else {
        let before = top_version(ts, src, dst, n - 1);
        let t = ts[n - 1];
        if t.src@ == src && t.dst@ == dst && t.version > before {
            t.version as int
        } else {
            before
        }
    }
}

/// What transforms are listed by: their frames, then their versions.
pub open spec fn transform_key(t: Transform) -> Seq<order::PartValue> {
    seq![
        order::PartValue::Text(t.src@),
        order::PartValue::Text(t.dst@),
        order::PartValue::Number(t.version as int),
    ]
}

/// Transforms, by position, in order of their frames and versions.
pub open spec fn transform_order(ts: Seq<Transform>) -> Seq<int> {
    order::order_of(ts.map_values(|t: Transform| transform_key(t)))
}

/// A rotation and a translation.
#[derive(Clone, Copy, Debug)]
pub struct Pose {
    pub rot: [Scalar; 4],
    pub trans: [Scalar; 3],
}

/// Whether a span of time that is open where a bound is missing holds no time.
pub open spec fn is_empty_span(from: Option<Nanos>, to: Option<Nanos>) -> bool {
    from is Some && to is Some && from->0 >= to->0
}

fn find_top_version(ts: &Vec<Transform>, src: &str, dst: &str) -> (r: i64)
    ensures
        r == top_version(ts@, src@, dst@, ts@.len() as int),
{
    let mut best: i64 = 0;
    let mut i: usize = 0;
    while i < ts.len()
        invariant
            i <= ts@.len(),
            best == top_version(ts@, src@, dst@, i as int),
        decreases ts.len() - i,
    {
        if text::same(ts[i].src.as_str(), src) && text::same(ts[i].dst.as_str(), dst)
            && ts[i].version > best {
            best = ts[i].version;
        }
        i += 1;
    }
    best
}

impl Store {
    /// Adds a version of a transform, given whether its covariance is positive
    /// semidefinite. Gives the version.
    pub fn add_transform(
        &mut self,
        src: &str,
        dst: &str,
        tf: Pose,
        cov: [Scalar; 36],
        is_psd: bool,
        valid_from: Option<Nanos>,
        valid_to: Option<Nanos>,
    ) -> (r: Result<i64, StoreError>)
        requires
            old(self).wf(),
            top_version(
                old(self).transforms@,
                src@,
                dst@,
                old(self).transforms@.len() as int,
            ) < i64::MAX,
        ensures
            final(self).wf(),
            final(self).packets == old(self).packets,
            final(self).blocks == old(self).blocks,
            final(self).last_block_id == old(self).last_block_id,
            match r {
                Err(e) => {
                    &&& final(self).transforms == old(self).transforms
                    &&& if !is_psd {
                        e.is_input("协方差矩阵非半正定"@)
                    } else {
                        is_empty_span(valid_from, valid_to) && e.is_input("有效时间区间为空"@)
                    }
                },
                Ok(version) => {
                    &&& is_psd
                    &&& !is_empty_span(valid_from, valid_to)
                    &&& version == top_version(
                        old(self).transforms@,
                        src@,
                        dst@,
                        old(self).transforms@.len() as int,
                    ) + 1
                    &&& final(self).transforms@.len() == old(self).transforms@.len() + 1
                    &&& final(self).transforms@.drop_last() == old(self).transforms@
                    &&& {
                        let t = final(self).transforms@.last();
                        &&& t.src@ == src@
                        &&& t.dst@ == dst@
                        &&& t.version == version
                        &&& t.rot == tf.rot
                        &&& t.trans == tf.trans
                        &&& t.cov == cov
                        &&& t.valid_from == valid_from
                        &&& t.valid_to == valid_to
                    }
                },
            },
    {
        if !is_psd {
            return Err(StoreError::BadInput("协方差矩阵非半正定".to_owned()));
        }
        if let Some(a) = valid_from {
            if let Some(b) = valid_to {
                if a >= b {
                    return Err(StoreError::BadInput("有效时间区间为空".to_owned()));
                }
            }
        }
        let version: i64 = find_top_version(&self.transforms, src, dst) + 1;
        let ghost before = self.transforms@;
        self.transforms.push(
            Transform {
                src: src.to_owned(),
                dst: dst.to_owned(),
                version,
                rot: tf.rot,
                trans: tf.trans,
                cov,
                valid_from,
                valid_to,
            },
        );
        assert(self.transforms@.drop_last() =~= before);
        Ok(version)
    }

    /// Lists transforms in order of their frames and versions.
    pub fn transforms(&self) -> (r: Vec<&Transform>)
        ensures
            r@.len() == self.transforms@.len(),
            forall|i: int|
                0 <= i < r@.len() ==> *#[trigger] r@[i] == self.transforms@[transform_order(
                    self.transforms@,
                )[i]],
    {
        let mut keys: Vec<Vec<Part>> = Vec::new();
        let mut i: usize = 0;
        while i < self.transforms.len()
            invariant
                i <= self.transforms@.len(),
                keys@.len() == i,
                forall|k: int|
                    0 <= k < i ==> order::key_value((#[trigger] keys@[k])@) == transform_key(
                        self.transforms@[k],
                    ),
            decreases self.transforms.len() - i,
        {
            let t = &self.transforms[i];
            let mut key: Vec<Part> = Vec::new();
            key.push(Part::Text(t.src.clone()));
            key.push(Part::Text(t.dst.clone()));
            key.push(Part::Number(t.version as i128));
            assert(order::key_value(key@) =~= transform_key(*t));
            keys.push(key);
            i += 1;
        }
        assert(order::key_values(keys@) =~= self.transforms@.map_values(
            |t: Transform| transform_key(t),
        ));
        let o = order::sorted_order(&keys);
        let ghost ov = order::positions(o@);
        let mut out: Vec<&Transform> = Vec::new();
        let mut k: usize = 0;
        while k < o.len()
            invariant
                k <= o@.len(),
                ov == order::positions(o@),
                forall|k: int| 0 <= k < o@.len() ==> #[trigger] o@[k] < self.transforms@.len(),
                out@.len() == k,
                forall|j: int| 0 <= j < k ==> *#[trigger] out@[j] == self.transforms@[ov[j]],
            decreases o.len() - k,
        {
            out.push(&self.transforms[o[k]]);
            k += 1;
        }
        out
    }
}

// ---- epochs, versions and revisions, in plain terms ---------------------------------------------

proof fn lemma_replay_passes_over(packets: Seq<Packet>, device: Seq<char>, i: int, j: int)
    requires
        0 <= i <= j <= packets.len(),
        forall|k: int| i <= k < j ==> (#[trigger] packets[k]).device@ != device,
    ensures
        replay(packets, device, j) == replay(packets, device, i),
    decreases j - i,
{
    if i < j {
        lemma_replay_passes_over(packets, device, i, j - 1);
        assert(packets[j - 1].device@ != device);
    }
}

proof fn lemma_splitter_at(s: Store, i: int, j: int)
    requires
        s.wf(),
        0 <= i < j < s.packets@.len(),
        s.packets@[i].device@ == s.packets@[j].device@,
        forall|k: int|
            i < k < j ==> (#[trigger] s.packets@[k]).device@ != s.packets@[i].device@,
    ensures
        ({
            let r = replay(s.packets@, s.packets@[j].device@, j);
            let p = s.packets@[i];
            &&& r.started
            &&& r.prev_seq == p.seq
            &&& r.epoch == p.epoch
            &&& r.prev_t == p.t
            &&& r.offset == p.t - p.t_raw
        }),
{
    let packets = s.packets@;
    let device = packets[j].device@;
    lemma_replay_passes_over(packets, device, i + 1, j);
    lemma_replay_in_range(packets, device, i);
    lemma_fed_in_range(replay(packets, device, i), packets[i].seq, packets[i].t_raw as int, i);
    assert(is_stamped(packets, i));
}

/// The first packet of a device opens epoch zero, at its raw time.
pub proof fn law_first_packet_of_a_device(s: Store, i: int)
    requires
        s.wf(),
        0 <= i < s.packets@.len(),
        forall|k: int| 0 <= k < i ==> (#[trigger] s.packets@[k]).device@ != s.packets@[i].device@,
    ensures
        s.packets@[i].epoch == 0,
        s.packets@[i].t == s.packets@[i].t_raw,
{
    lemma_replay_passes_over(s.packets@, s.packets@[i].device@, 0, i);
    assert(is_stamped(s.packets@, i));
}

/// Of two packets of a device, one after the other: in sequence, with raw time not stepping
/// back, they are of one epoch and as far apart as their raw times; a number that does not
/// go on opens the next epoch at its own raw time, unless raw time goes on by three seconds.
pub proof fn law_consecutive_packets_of_a_device(s: Store, i: int, j: int)
    requires
        s.wf(),
        0 <= i < j < s.packets@.len(),
        s.packets@[i].device@ == s.packets@[j].device@,
        forall|k: int|
            i < k < j ==> (#[trigger] s.packets@[k]).device@ != s.packets@[i].device@,
    ensures
        s.packets@[j].seq > s.packets@[i].seq && s.packets@[j].t_raw >= s.packets@[i].t_raw ==> {
            &&& s.packets@[j].epoch == s.packets@[i].epoch
            &&& s.packets@[j].t - s.packets@[i].t == s.packets@[j].t_raw - s.packets@[i].t_raw
        },
        s.packets@[j].seq > s.packets@[i].seq && -3_000_000_000 <= s.packets@[j].t_raw
            - s.packets@[i].t_raw <= 0 ==> {
            &&& s.packets@[j].epoch == s.packets@[i].epoch
            &&& s.packets@[j].t == s.packets@[i].t
        },
        s.packets@[j].seq <= s.packets@[i].seq && s.packets@[j].t_raw - s.packets@[i].t_raw
            < 3_000_000_000 ==> {
            &&& s.packets@[j].epoch == s.packets@[i].epoch + 1
            &&& s.packets@[j].t == s.packets@[j].t_raw
        },
        s.packets@[j].seq > s.packets@[i].seq && s.packets@[j].t_raw - s.packets@[i].t_raw
            < -3_000_000_000 && (forall|n: int| !#[trigger]
            epoch::falls_by_weeks(s.packets@[j].t_raw - s.packets@[i].t_raw, n)) ==> {
            &&& s.packets@[j].epoch == s.packets@[i].epoch + 1
            &&& s.packets@[j].t == s.packets@[j].t_raw
        },
{
    let packets = s.packets@;
    lemma_splitter_at(s, i, j);
    let r = replay(packets, packets[j].device@, j);
    assert(is_stamped(packets, j));
    if packets[j].seq > packets[i].seq && packets[j].t_raw - packets[i].t_raw < -3_000_000_000 {
        epoch::law_large_step_back_is_weeks_or_a_new_epoch(
            r,
            packets[j].seq,
            packets[j].t_raw as int,
            1,
        );
    }
}

/// Of two packets of a device, one after the other and in sequence, raw time falling by so
/// many weeks, but for five seconds, goes on by what is left, or stands still.
pub proof fn law_week_rollover_in_the_store(s: Store, i: int, j: int, weeks: int)
    requires
        s.wf(),
        0 <= i < j < s.packets@.len(),
        s.packets@[i].device@ == s.packets@[j].device@,
        forall|k: int|
            i < k < j ==> (#[trigger] s.packets@[k]).device@ != s.packets@[i].device@,
        s.packets@[j].seq > s.packets@[i].seq,
        epoch::falls_by_weeks(s.packets@[j].t_raw - s.packets@[i].t_raw, weeks),
    ensures
        s.packets@[j].epoch == s.packets@[i].epoch,
        ({
            let left = s.packets@[j].t_raw - s.packets@[i].t_raw + weeks * 604_800_000_000_000;
            s.packets@[j].t - s.packets@[i].t == if left < 0 {
                0
            } else {
                left
            }
        }),
{
    let packets = s.packets@;
    lemma_splitter_at(s, i, j);
    assert(is_stamped(packets, j));
    epoch::law_large_step_back_is_weeks_or_a_new_epoch(
        replay(packets, packets[j].device@, j),
        packets[j].seq,
        packets[j].t_raw as int,
        weeks,
    );
}

/// The highest version of a pair of frames is that of one of its transforms, or zero, and
/// none of them has a higher one.
pub proof fn law_top_version_is_the_highest(
    ts: Seq<Transform>,
    src: Seq<char>,
    dst: Seq<char>,
    n: int,
)
    requires
        0 <= n <= ts.len(),
    ensures
        top_version(ts, src, dst, n) >= 0,
        forall|k: int|
            0 <= k < n && (#[trigger] ts[k]).src@ == src && ts[k].dst@ == dst ==> ts[k].version
                <= top_version(ts, src, dst, n),
        top_version(ts, src, dst, n) == 0 || exists|k: int|
            0 <= k < n && (#[trigger] ts[k]).src@ == src && ts[k].dst@ == dst && ts[k].version
                == top_version(ts, src, dst, n),
    decreases n,
{
    if n > 0 {
        law_top_version_is_the_highest(ts, src, dst, n - 1);
    }
}

/// A revision drops the finished blocks whose time is in its span, ends included, and
/// whose chain has a step named after its two frames; it drops no other.
pub proof fn law_revision_drops_blocks_of_its_edge_and_span(
    blocks: Seq<Block>,
    src: Seq<char>,
    dst: Seq<char>,
    from: Option<Nanos>,
    to: Option<Nanos>,
    b: Block,
)
    requires
        blocks.contains(b),
    ensures
        !current(blocks, edge_name(src, dst), from, to).contains(b) <==> {
            &&& b.status is Complete
            &&& from is Some ==> from->0 <= b.t
            &&& to is Some ==> b.t <= to->0
            &&& exists|k: int|
                0 <= k < b.chain.hops@.len() && (#[trigger] b.chain.hops@[k]).edge@ == src + "->"@
                    + dst
        },
{
    law_revision_drops_only_what_it_covers(blocks, edge_name(src, dst), from, to);
}

/// Writing a packet's block takes away the one that it had, and no other.
pub proof fn law_other_blocks_stay(blocks: Seq<Block>, packet_id: i64, b: Block)
    ensures
        others(blocks, packet_id).contains(b) <==> blocks.contains(b) && b.packet_id != packet_id,
{
    let holds = |x: Block| x.packet_id != packet_id;
    db::lemma_filter_keeps_order(blocks, holds, |a: Block, c: Block| true);
    assert(holds(b) == (b.packet_id != packet_id));
    if others(blocks, packet_id).contains(b) {
        let k = choose|k: int|
            0 <= k < others(blocks, packet_id).len() && others(blocks, packet_id)[k] == b;
        assert(holds(others(blocks, packet_id)[k]));
    }
}

/// Blocks are listed where they were finished, each once, by time and then by id.
pub proof fn law_finished_blocks_are_listed_by_time(blocks: Seq<Block>)
    ensures
        forall|k: int|
            0 <= k < listed(blocks).len() ==> 0 <= #[trigger] listed(blocks)[k] < blocks.len()
                && blocks[listed(blocks)[k]].status is Complete,
        forall|x: int|
            0 <= x < blocks.len() && (#[trigger] blocks[x]).status is Complete ==> listed(
                blocks,
            ).contains(x),
        forall|k: int, m: int|
            #![trigger listed(blocks)[k], listed(blocks)[m]]
            0 <= k < m < listed(blocks).len() ==> {
                let a = blocks[listed(blocks)[k]];
                let b = blocks[listed(blocks)[m]];
                &&& listed(blocks)[k] != listed(blocks)[m]
                &&& a.t < b.t || (a.t == b.t && a.id <= b.id)
            },
{
    let n = blocks.len() as int;
    let shown = is_finished(blocks);
    let key = |i: int| order::pair_key(blocks[i].t as int, blocks[i].id as int);
    let at = rows::all_where(n, shown);
    let bkey = |b: Block| order::pair_key(b.t as int, b.id as int);
    assert(at.map_values(|i: int| bkey(blocks[i])) =~= at.map_values(key));
    assert(listed(blocks) == order::listed(n, shown, key));
    order::law_listing_holds_what_is_shown(n, shown, key);
    assert forall|k: int| 0 <= k < listed(blocks).len() implies 0 <= #[trigger] listed(blocks)[k]
        < blocks.len() && blocks[listed(blocks)[k]].status is Complete by {
        assert(shown(order::listed(n, shown, key)[k]));
    }
    assert forall|x: int|
        0 <= x < blocks.len() && (#[trigger] blocks[x]).status is Complete implies listed(
        blocks,
    ).contains(x) by {
        assert(shown(x));
    }
    assert forall|k: int, m: int|
        #![trigger listed(blocks)[k], listed(blocks)[m]]
        0 <= k < m < listed(blocks).len() implies {
        let a = blocks[listed(blocks)[k]];
        let b = blocks[listed(blocks)[m]];
        &&& listed(blocks)[k] != listed(blocks)[m]
        &&& a.t < b.t || (a.t == b.t && a.id <= b.id)
    } by {
        let l = order::listed(n, shown, key);
        let a = blocks[l[k]];
        let b = blocks[l[m]];
        assert(l[k] != l[m]);
        order::lemma_pair_key_before(b.t as int, b.id as int, a.t as int, a.id as int);
    }
}

/// The packets that are listed are those of the kind asked for, or all where none is, in
/// the order in which they came.
pub proof fn law_packets_are_listed_as_they_came(
    s: Store,
    kind: Option<Seq<char>>,
    x: int,
    i: int,
    j: int,
)
    requires
        s.wf(),
    ensures
        ({
            let at = rows::all_where(s.packets@.len() as int, asked_for(s.packets@, kind));
            &&& at.contains(x) <==> 0 <= x < s.packets@.len() && (kind is Some
                ==> s.packets@[x].kind@ == kind->0)
            &&& 0 <= i < j < at.len() ==> s.packets@[at[i]].id < s.packets@[at[j]].id
        }),
{
    let n = s.packets@.len() as int;
    let holds = asked_for(s.packets@, kind);
    let at = rows::all_where(n, holds);
    rows::lemma_all_where(n, holds);
    if at.contains(x) {
        let k = choose|k: int| 0 <= k < at.len() && at[k] == x;
        assert(holds(at[k]));
    }
    if 0 <= x < n && (kind is Some ==> s.packets@[x].kind@ == kind->0) {
        assert(holds(x));
    }
    if 0 <= i < j < at.len() {
        assert(at[i] < at[j]);
        assert(s.packets@[at[i]].id == at[i] + 1 && s.packets@[at[j]].id == at[j] + 1);
    }
}

/// Transforms are listed once each, by the frame that they lead from, then by the one that
/// they lead to, then by version.
pub proof fn law_transforms_are_listed_in_order(ts: Seq<Transform>, x: int, i: int, j: int)
    ensures
        transform_order(ts).len() == ts.len(),
        0 <= x < ts.len() ==> transform_order(ts).contains(x),
        0 <= i < j < ts.len() ==> {
            let a = ts[transform_order(ts)[i]];
            let b = ts[transform_order(ts)[j]];
            &&& transform_order(ts)[i] != transform_order(ts)[j]
            &&& text::before(a.src@, b.src@) || (a.src@ == b.src@ && (text::before(a.dst@, b.dst@)
                || (a.dst@ == b.dst@ && a.version <= b.version)))
        },
{
    let keys = ts.map_values(|t: Transform| transform_key(t));
    let at = transform_order(ts);
    order::law_order_is_unique(keys, at);
    if 0 <= i < j < ts.len() {
        let a = ts[at[i]];
        let b = ts[at[j]];
        let u = transform_key(a);
        let v = transform_key(b);
        assert(order::precedes(keys, at[i], at[j]));
        assert(keys[at[i]] == u && keys[at[j]] == v);
        order::law_key_order_is_strict_and_total(u, v, u);
        assert(u[0] == order::PartValue::Text(a.src@) && v[0] == order::PartValue::Text(b.src@));
        assert(u[1] == order::PartValue::Text(a.dst@) && v[1] == order::PartValue::Text(b.dst@));
        assert(u[2] == order::PartValue::Number(a.version as int));
        assert(v[2] == order::PartValue::Number(b.version as int));
        if a.src@ != b.src@ {
            order::law_first_difference_decides(u, v, 0);
        } else if a.dst@ != b.dst@ {
            order::law_first_difference_decides(u, v, 1);
        } else if a.version != b.version {
            order::law_first_difference_decides(u, v, 2);
        }
    }
}

/// A span is empty where no time is at or after its start and before its end.
pub proof fn law_empty_span_holds_no_time(from: Option<Nanos>, to: Option<Nanos>, t: int)
    ensures
        is_empty_span(from, to) ==> !((from is Some ==> from->0 <= t) && (to is Some ==> t
            < to->0)),
        !is_empty_span(from, to) && from is Some && to is Some ==> from->0 < to->0,
{
}

/// A packet is taken where its unit is one of five and its kind one of two.
pub proof fn law_known_units_and_kinds(name: Seq<char>)
    ensures
        is_unit(name) <==> name == "m"@ || name == "cm"@ || name == "mm"@ || name == "deg"@ || name
            == "rad"@,
        is_kind(name) <==> name == "lidar"@ || name == "pose"@,
{
}

/// A packet is kept as it came.
pub proof fn law_packet_is_kept_as_it_came(
    row: Packet,
    id: int,
    s: EpochSplitter,
    device: Seq<char>,
    kind: Seq<char>,
    seq: u64,
    t_raw: Nanos,
    frame: Seq<char>,
    unit: Seq<char>,
    summary: Seq<char>,
    payload: Seq<char>,
)
    requires
        is_row_of(row, id, s, device, kind, seq, t_raw, frame, unit, summary, payload),
    ensures
        row.id == id,
        row.device@ == device,
        row.kind@ == kind,
        row.seq == seq,
        row.t_raw == t_raw,
        row.frame@ == frame,
        row.unit@ == unit,
        row.summary@ == summary,
        row.payload@ == payload,
        s.started && seq > s.prev_seq && t_raw >= s.prev_t - s.offset ==> row.epoch == s.epoch
            && row.t - s.prev_t == t_raw - (s.prev_t - s.offset),
{
}

/// An error about a unit names the unit, and one about the input its message; they are told
/// apart.
pub proof fn law_what_an_error_is_about(e: StoreError, unit: Seq<char>, message: Seq<char>)
    ensures
        e matches StoreError::BadUnit(u) ==> (e.is_unit(unit) <==> unit == u@) && !e.is_input(
            message,
        ) && e.words() == "未知单位 '"@ + u@ + "'，支持: m, cm, mm, deg, rad"@,
        e matches StoreError::BadInput(m) ==> (e.is_input(message) <==> message == m@)
            && !e.is_unit(unit) && e.words() == "输入错误: "@ + m@,
{
}

} // verus!
