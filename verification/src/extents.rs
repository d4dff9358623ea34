//! Byte extents of a file inside a disc image, built from the logical block
//! address (LBA) of each of its 2048-byte blocks.
//!
//! The addresses come from the UDF reader one query at a time, so the
//! builder is a small state machine: [`ExtentScan::next_step`] says which
//! block's address is wanted next and [`ExtentScan::feed`] takes the answer.
//! A file stored in one contiguous run is recognised from its first and last
//! block alone; only a fragmented file is scanned block by block.

use vstd::prelude::*;

verus! {

/// Size in bytes of one disc sector (one UDF logical block).
pub const SECTOR_SIZE: u64 = 2048;

/// A contiguous byte range within the disc image.
#[derive(Clone, Copy, Debug, PartialEq, Eq, Structural)]
pub struct IsoExtent {
    /// Byte offset from the start of the image.
    pub offset: u64,
    /// Length in bytes.
    pub length: u64,
}

/// A run of blocks whose addresses are consecutive, still open at the end
/// of the blocks looked at so far.
#[derive(Clone, Copy, Debug, PartialEq, Eq, Structural)]
pub struct OpenRun {
    /// Index in the file of the run's first block.
    pub start_block: u32,
    /// Address of the run's first block.
    pub start_lba: u32,
    /// Number of blocks in the run.
    pub len: u32,
}

/// Number of blocks a file of `size` bytes occupies, kept to 32 bits as the
/// UDF block interface counts them.
pub open spec fn spec_block_count(size: u64) -> u32 {
    ((size as int + 2047) / 2048) as u32
}

/// Byte offset of the sector at address `lba`.
pub open spec fn sector_offset(lba: u32) -> u64 {
    (lba as int * 2048) as u64
}

/// The extent of a whole file stored from sector `lba` on.
pub open spec fn whole_file_extent(lba: u32, size: u64) -> IsoExtent {
    IsoExtent { offset: sector_offset(lba), length: size }
}

/// The extent of a run that ended before the file's last block.
pub open spec fn closed_run_extent(r: OpenRun) -> IsoExtent {
    IsoExtent { offset: sector_offset(r.start_lba), length: (r.len as int * 2048) as u64 }
}

/// The extent of the run that reaches the file's last block: it holds the
/// rest of the file from the run's first block on.
pub open spec fn last_run_extent(r: OpenRun, size: u64) -> IsoExtent {
    let before = r.start_block as int * 2048;
    IsoExtent {
        offset: sector_offset(r.start_lba),
        length: if size as int >= before { (size - before) as u64 } else { 0 },
    }
}

/// Scanning the block addresses `t` from the first on: the extents of the
/// runs already ended, and the run still open. Address 0 marks a block that
/// has no address; it belongs to no run.
pub open spec fn spec_runs(t: Seq<u32>) -> (Seq<IsoExtent>, Option<OpenRun>)
    decreases t.len(),
{
    if t.len() == 0 {
        (Seq::empty(), None)
    } else {
        let (closed, open) = spec_runs(t.drop_last());
        let x = t.last();
        if open is Some && x as int == open->0.start_lba + open->0.len {
            (closed, Some(OpenRun { len: (open->0.len + 1) as u32, ..open->0 }))
        } else {
            let closed2 = match open {
                Some(r) => closed.push(closed_run_extent(r)),
                None => closed,
            };
            let open2 = if x != 0 {
                Some(OpenRun { start_block: (t.len() - 1) as u32, start_lba: x, len: 1 })
            } else {
                None
            };
            (closed2, open2)
        }
    }
}

/// The extents of a fragmented file of `size` bytes whose blocks have the
/// addresses `t`: one per maximal run of consecutive addresses.
pub open spec fn spec_fragmented_extents(t: Seq<u32>, size: u64) -> Seq<IsoExtent> {
    let (closed, open) = spec_runs(t);
    match open {
        Some(r) => closed.push(last_run_extent(r, size)),
        None => closed,
    }
}

/// The extents of a file of `size` bytes whose blocks have the addresses
/// `t` (one per block). A file without blocks, or whose first block has no
/// address, has none; a file whose first and last blocks lie as far apart as
/// a contiguous file's would is taken to be one run.
pub open spec fn spec_file_extents(t: Seq<u32>, size: u64) -> Seq<IsoExtent> {
    if t.len() == 0 || t[0] == 0 {
        Seq::empty()
    } else if t.len() == 1 || t.last() as int == t[0] + t.len() - 1 {
        seq![whole_file_extent(t[0], size)]
    } else {
        spec_fragmented_extents(t, size)
    }
}

/// What the scan of a file's block addresses has learnt so far.
pub enum ScanStage {
    /// The address of block 0 is wanted.
    AwaitFirst,
    /// The address of the last block is wanted; block 0 is at `first`.
    AwaitLast { first: u32 },
    /// Blocks are looked at one by one; `seen` holds the addresses so far.
    Scanning { seen: Seq<u32> },
    /// The extents are known.
    Finished { extents: Seq<IsoExtent> },
}

/// The abstract state of an [`ExtentScan`].
pub struct ExtentScanView {
    pub size: u64,
    pub total: u32,
    pub stage: ScanStage,
}

/// What the scan wants next.
#[derive(Clone, Copy, Debug, PartialEq, Eq, Structural)]
pub enum ExtentStep {
    /// The address of this block of the file.
    Lookup(u32),
    /// Nothing: the extents are known.
    Done,
}

impl ExtentScanView {
    /// The state in which the scan of a file of `size` bytes starts.
    pub open spec fn initial(size: u64) -> ExtentScanView {
        let total = spec_block_count(size);
        ExtentScanView {
            size,
            total,
            stage: if total == 0 {
                ScanStage::Finished { extents: Seq::empty() }
            } else {
                ScanStage::AwaitFirst
            },
        }
    }

    /// The step that the scan asks for in this state.
    pub open spec fn next_step(self) -> ExtentStep {
        match self.stage {
            ScanStage::AwaitFirst => ExtentStep::Lookup(0),
            ScanStage::AwaitLast { .. } => ExtentStep::Lookup((self.total - 1) as u32),
            ScanStage::Scanning { seen } => ExtentStep::Lookup(seen.len() as u32),
            ScanStage::Finished { .. } => ExtentStep::Done,
        }
    }

    /// The state after the address `lba` of the wanted block is given.
    pub open spec fn after(self, lba: u32) -> ExtentScanView {
        let stage = match self.stage {
            ScanStage::AwaitFirst => if lba == 0 {
                ScanStage::Finished { extents: Seq::empty() }
            } else if self.total == 1 {
                ScanStage::Finished { extents: seq![whole_file_extent(lba, self.size)] }
            } else {
                ScanStage::AwaitLast { first: lba }
            },
            ScanStage::AwaitLast { first } => if lba as int == first + self.total - 1 {
                ScanStage::Finished { extents: seq![whole_file_extent(first, self.size)] }
            } else {
                ScanStage::Scanning { seen: Seq::empty() }
            },
            ScanStage::Scanning { seen } => if seen.len() + 1 == self.total {
                ScanStage::Finished {
                    extents: spec_fragmented_extents(seen.push(lba), self.size),
                }
            } else {
                ScanStage::Scanning { seen: seen.push(lba) }
            },
            ScanStage::Finished { extents } => ScanStage::Finished { extents },
        };
        ExtentScanView { stage, ..self }
    }

    pub open spec fn is_finished(self) -> bool {
        self.stage is Finished
    }
}

#[derive(Clone, Copy, Debug, PartialEq, Eq, Structural)]
enum Phase {
    AwaitFirst,
    AwaitLast { first: u32 },
    Scanning,
    Finished,
}

/// Builds the extents of one file from the addresses of its blocks.
pub struct ExtentScan {
    size: u64,
    total: u32,
    phase: Phase,
    /// In the scanning phase, the number of blocks looked at.
    seen_count: u32,
    /// In the scanning phase, the run still open.
    run: Option<OpenRun>,
    /// The extents of the runs already ended; when finished, all of them.
    extents: Vec<IsoExtent>,
    /// In the scanning phase, the addresses looked at.
    seen: Ghost<Seq<u32>>,
}

impl View for ExtentScan {
    type V = ExtentScanView;

    closed spec fn view(&self) -> ExtentScanView {
        let stage = match self.phase {
            Phase::AwaitFirst => ScanStage::AwaitFirst,
            Phase::AwaitLast { first } => ScanStage::AwaitLast { first },
            Phase::Scanning => ScanStage::Scanning { seen: self.seen@ },
            Phase::Finished => ScanStage::Finished { extents: self.extents@ },
        };
        ExtentScanView { size: self.size, total: self.total, stage }
    }
}

/// The open run found in `t` ends at `t`'s last block and starts at a block
/// with an address.
proof fn lemma_open_run_shape(t: Seq<u32>)
    requires
        t.len() <= u32::MAX,
    ensures
        spec_runs(t).1 matches Some(r) ==> {
            &&& r.len >= 1
            &&& r.start_block + r.len == t.len()
            &&& r.start_lba != 0
        },
    decreases t.len(),
{
    if t.len() > 0 {
        lemma_open_run_shape(t.drop_last());
    }
}

fn closed_extent_of(r: OpenRun) -> (e: IsoExtent)
    ensures
        e == closed_run_extent(r),
{
    IsoExtent { offset: r.start_lba as u64 * SECTOR_SIZE, length: r.len as u64 * SECTOR_SIZE }
}

fn last_extent_of(r: OpenRun, size: u64) -> (e: IsoExtent)
    ensures
        e == last_run_extent(r, size),
{
    IsoExtent {
        offset: r.start_lba as u64 * SECTOR_SIZE,
        length: size.saturating_sub(r.start_block as u64 * SECTOR_SIZE),
    }
}

/// Number of blocks a file of `size` bytes occupies, kept to 32 bits.
pub fn block_count(size: u64) -> (n: u32)
    ensures
        n == spec_block_count(size),
{
    let whole = size / SECTOR_SIZE;
    let part: u64 = if size % SECTOR_SIZE != 0 { 1 } else { 0 };
    assert(whole + part == (size as int + 2047) / 2048);
    (whole + part) as u32
}

impl ExtentScan {
    /// Internal consistency of the scan.
    #[verifier::type_invariant]
    spec fn inv(&self) -> bool {
        &&& self.phase is AwaitFirst ==> self.total >= 1
        &&& self.phase matches Phase::AwaitLast { first } ==> self.total >= 2 && first != 0
        &&& self.phase is Scanning ==> {
            &&& self.seen@.len() == self.seen_count
            &&& self.seen_count < self.total
            &&& (self.extents@, self.run) == spec_runs(self.seen@)
        }
    }

    /// Starts the scan of a file of `size` bytes.
    pub fn new(size: u64) -> (s: ExtentScan)
        ensures
            s@ == ExtentScanView::initial(size),
    {
        let total = block_count(size);
        let phase = if total == 0 { Phase::Finished } else { Phase::AwaitFirst };
        ExtentScan {
            size,
            total,
            phase,
            seen_count: 0,
            run: None,
            extents: Vec::new(),
            seen: Ghost(Seq::empty()),
        }
    }

    /// What the scan wants next.
    pub fn next_step(&self) -> (step: ExtentStep)
        ensures
            step == self@.next_step(),
    {
        proof {
            use_type_invariant(self);
        }
        match self.phase {
            Phase::AwaitFirst => ExtentStep::Lookup(0),
            Phase::AwaitLast { .. } => ExtentStep::Lookup(self.total - 1),
            Phase::Scanning => ExtentStep::Lookup(self.seen_count),
            Phase::Finished => ExtentStep::Done,
        }
    }

    /// Whether the extents are known.
    pub fn is_finished(&self) -> (b: bool)
        ensures
            b == self@.is_finished(),
    {
        match self.phase {
            Phase::Finished => true,
            _ => false,
        }
    }

    /// Takes the address `lba` of the block that [`Self::next_step`] asked for.
    pub fn feed(&mut self, lba: u32)
        ensures
            final(self)@ == old(self)@.after(lba),
    {
        let mut cur = ExtentScan::new(0);
        std::mem::swap(self, &mut cur);
        proof {
            use_type_invariant(&cur);
        }
        let ghost before = cur@;
        let ExtentScan { size, total, phase, seen_count, run, extents, seen } = cur;
        let mut phase = phase;
        let mut seen_count = seen_count;
        let mut run = run;
        let mut extents = extents;
        let ghost mut seen_g = seen@;
        match phase {
            Phase::AwaitFirst => {
                if lba == 0 {
                    extents = Vec::new();
                    phase = Phase::Finished;
                } else if total == 1 {
                    let mut v = Vec::new();
                    v.push(IsoExtent { offset: lba as u64 * SECTOR_SIZE, length: size });
                    extents = v;
                    phase = Phase::Finished;
                } else {
                    phase = Phase::AwaitLast { first: lba };
                }
            },
            Phase::AwaitLast { first } => {
                if lba as u64 == first as u64 + total as u64 - 1 {
                    let mut v = Vec::new();
                    v.push(IsoExtent { offset: first as u64 * SECTOR_SIZE, length: size });
                    extents = v;
                    phase = Phase::Finished;
                } else {
                    extents = Vec::new();
                    run = None;
                    seen_count = 0;
                    proof {
                        seen_g = Seq::empty();
                    }
                    phase = Phase::Scanning;
                    assert(extents@ =~= Seq::<IsoExtent>::empty());
                }
            },
            Phase::Scanning => {
                let ghost old_seen = seen_g;
                let ghost new_seen = old_seen.push(lba);
                proof {
                    lemma_open_run_shape(old_seen);
                    assert(new_seen.drop_last() =~= old_seen);
                }
                let b = seen_count;
                let extends = match run {
                    Some(r) => lba as u64 == r.start_lba as u64 + r.len as u64,
                    None => false,
                };
                if extends {
                    let r = run.unwrap();
                    run = Some(OpenRun { len: r.len + 1, ..r });
                } else {
                    match run {
                        Some(r) => {
                            extents.push(closed_extent_of(r));
                        },
                        None => {},
                    }
                    run = if lba != 0 {
                        Some(OpenRun { start_block: b, start_lba: lba, len: 1 })
                    } else {
                        None
                    };
                }
                seen_count = b + 1;
                proof {
                    seen_g = new_seen;
                }
                assert((extents@, run) == spec_runs(new_seen));
                if seen_count == total {
                    match run {
                        Some(r) => {
                            extents.push(last_extent_of(r, size));
                        },
                        None => {},
                    }
                    run = None;
                    phase = Phase::Finished;
                }
            },
            Phase::Finished => {},
        }
        *self = ExtentScan { size, total, phase, seen_count, run, extents, seen: Ghost(seen_g) };
    }

    /// The extents found; empty until the scan is finished.
    pub fn into_extents(self) -> (v: Vec<IsoExtent>)
        ensures
            self@.stage matches ScanStage::Finished { extents } ==> v@ == extents,
            !self@.is_finished() ==> v@.len() == 0,
    {
        match self.phase {
            Phase::Finished => self.extents,
            _ => Vec::new(),
        }
    }
}

} // verus!

verus! {

/// The state reached from `v` when each wanted block's address is read from
/// the table `t`, for at most `fuel` steps.
pub open spec fn drive_by_table(v: ExtentScanView, t: Seq<u32>, fuel: nat) -> ExtentScanView
    decreases fuel,
{
    if fuel == 0 {
        v
    } else {
        match v.next_step() {
            ExtentStep::Lookup(b) => drive_by_table(v.after(t[b as int]), t, (fuel - 1) as nat),
            ExtentStep::Done => v,
        }
    }
}

/// Sum of the lengths of `extents`.
pub open spec fn total_length(extents: Seq<IsoExtent>) -> int
    decreases extents.len(),
{
    if extents.len() == 0 {
        0
    } else {
        total_length(extents.drop_last()) + extents.last().length
    }
}

proof fn lemma_runs_of_consecutive(t: Seq<u32>)
    requires
        1 <= t.len() <= u32::MAX,
        t[0] != 0,
        forall|i: int| 0 <= i < t.len() ==> #[trigger] t[i] as int == t[0] + i,
    ensures
        spec_runs(t) == (Seq::<IsoExtent>::empty(), Some(OpenRun { start_block: 0, start_lba: t[0], len: t.len() as u32 })),
    decreases t.len(),
{
    let p = t.drop_last();
    assert(t.last() == t[t.len() - 1]);
    if t.len() > 1 {
        assert(p[0] == t[0]);
        assert forall|i: int| 0 <= i < p.len() implies #[trigger] p[i] as int == p[0] + i by {
            assert(p[i] == t[i]);
        }
        lemma_runs_of_consecutive(p);
    } else {
        assert(spec_runs(p) == (Seq::<IsoExtent>::empty(), None::<OpenRun>));
    }
}

/// A file whose blocks lie at consecutive addresses has exactly one extent,
/// covering the whole file from its first block's sector; the block-by-block
/// scan finds the same extent as the comparison of the first and last block.
pub proof fn law_contiguous_file_is_one_extent(t: Seq<u32>, size: u64)
    requires
        1 <= t.len() <= u32::MAX,
        t[0] != 0,
        forall|i: int| 0 <= i < t.len() ==> #[trigger] t[i] as int == t[0] + i,
    ensures
        spec_file_extents(t, size) == seq![whole_file_extent(t[0], size)],
        spec_fragmented_extents(t, size) == seq![whole_file_extent(t[0], size)],
{
    lemma_runs_of_consecutive(t);
    assert(t.last() == t[t.len() - 1]);
    assert(Seq::<IsoExtent>::empty().push(last_run_extent(OpenRun { start_block: 0, start_lba: t[0], len: t.len() as u32 }, size))
        =~= seq![whole_file_extent(t[0], size)]);
}

proof fn lemma_runs_cover_blocks(t: Seq<u32>)
    requires
        1 <= t.len() <= u32::MAX,
        forall|i: int| 0 <= i < t.len() ==> t[i] != 0,
    ensures
        spec_runs(t).1 is Some,
        total_length(spec_runs(t).0) == spec_runs(t).1->0.start_block as int * 2048,
    decreases t.len(),
{
    lemma_open_run_shape(t);
    let p = t.drop_last();
    assert(t.last() == t[t.len() - 1]);
    if p.len() == 0 {
        assert(spec_runs(p).0 =~= Seq::<IsoExtent>::empty());
    } else {
        assert forall|i: int| 0 <= i < p.len() implies p[i] != 0 by {
            assert(p[i] == t[i]);
        }
        lemma_runs_cover_blocks(p);
        lemma_open_run_shape(p);
        let (closed, open) = spec_runs(p);
        let r = open->0;
        if !(t.last() as int == r.start_lba + r.len) {
            let c2 = closed.push(closed_run_extent(r));
            assert(c2.drop_last() =~= closed);
            assert(total_length(c2) == total_length(closed) + r.len as int * 2048);
        }
    }
}

/// When every block of a file of `size` bytes has an address and the file has
/// as many blocks as its size needs, its extents add up to exactly `size` bytes.
pub proof fn law_extents_cover_file(t: Seq<u32>, size: u64)
    requires
        t.len() <= u32::MAX,
        t.len() == (size as int + 2047) / 2048,
        forall|i: int| 0 <= i < t.len() ==> t[i] != 0,
    ensures
        total_length(spec_file_extents(t, size)) == size,
{
    if t.len() == 0 {
        assert(total_length(spec_file_extents(t, size)) == 0);
    } else if t.len() == 1 || t.last() as int == t[0] + t.len() - 1 {
        let s = seq![whole_file_extent(t[0], size)];
        assert(s.drop_last() =~= Seq::<IsoExtent>::empty());
        assert(total_length(Seq::<IsoExtent>::empty()) == 0);
        assert(total_length(s) == size);
    } else {
        lemma_runs_cover_blocks(t);
        lemma_open_run_shape(t);
        let (closed, open) = spec_runs(t);
        let r = open->0;
        let all = closed.push(last_run_extent(r, size));
        assert(all.drop_last() =~= closed);
        assert(r.start_block as int * 2048 <= size);
    }
}

proof fn lemma_scanning_reaches_fragmented(t: Seq<u32>, size: u64, k: nat)
    requires
        2 <= t.len() <= u32::MAX,
        k < t.len(),
    ensures
        drive_by_table(
            ExtentScanView { size, total: t.len() as u32, stage: ScanStage::Scanning { seen: t.take(k as int) } },
            t,
            (t.len() - k) as nat,
        ) == (ExtentScanView { size, total: t.len() as u32, stage: ScanStage::Finished { extents: spec_fragmented_extents(t, size) } }),
    decreases t.len() - k,
{
    let v = ExtentScanView { size, total: t.len() as u32, stage: ScanStage::Scanning { seen: t.take(k as int) } };
    assert(t.take(k as int).push(t[k as int]) =~= t.take(k + 1int));
    let fuel = (t.len() - k) as nat;
    assert(drive_by_table(v, t, fuel) == drive_by_table(v.after(t[k as int]), t, (fuel - 1) as nat));
    if k + 1 == t.len() {
        assert(t.take(k + 1int) =~= t);
        let w = v.after(t[k as int]);
        assert(w.stage is Finished);
        if fuel - 1 > 0 {
            assert(drive_by_table(w, t, (fuel - 1) as nat) == w);
        }
    } else {
        lemma_scanning_reaches_fragmented(t, size, k + 1);
    }
}

/// Answering each block the scan asks for from the block-address table `t` of
/// the file, the scan finishes within `t.len() + 2` answers and gives the
/// file's extents.
pub proof fn law_scan_by_table(t: Seq<u32>, size: u64)
    requires
        t.len() <= u32::MAX,
        t.len() == spec_block_count(size),
    ensures
        drive_by_table(ExtentScanView::initial(size), t, (t.len() + 2) as nat)
            == (ExtentScanView { size, total: t.len() as u32, stage: ScanStage::Finished { extents: spec_file_extents(t, size) } }),
{
    let v0 = ExtentScanView::initial(size);
    let n = t.len();
    if n == 0 {
        assert(drive_by_table(v0, t, 2) == v0);
    } else {
        let v1 = v0.after(t[0]);
        assert(drive_by_table(v0, t, (n + 2) as nat) == drive_by_table(v1, t, (n + 1) as nat));
        if t[0] == 0 || n == 1 {
            assert(drive_by_table(v1, t, (n + 1) as nat) == v1);
            if n == 1 {
                assert(t.last() == t[0]);
            }
        } else {
            assert(t.last() == t[n - 1]);
            let v2 = v1.after(t[n - 1]);
            assert(drive_by_table(v1, t, (n + 1) as nat) == drive_by_table(v2, t, n as nat));
            if t.last() as int == t[0] + n - 1 {
                assert(drive_by_table(v2, t, n as nat) == v2);
            } else {
                assert(t.take(0) =~= Seq::<u32>::empty());
                lemma_scanning_reaches_fragmented(t, size, 0);
            }
        }
    }
}

proof fn lemma_runs_on_sectors(t: Seq<u32>)
    requires
        t.len() <= u32::MAX,
    ensures
        forall|i: int| 0 <= i < spec_runs(t).0.len() ==> #[trigger] spec_runs(t).0[i].offset % 2048 == 0,
        spec_runs(t).1 matches Some(r) ==> sector_offset(r.start_lba) % 2048 == 0,
    decreases t.len(),
{
    if t.len() > 0 {
        lemma_runs_on_sectors(t.drop_last());
        let (closed, open) = spec_runs(t.drop_last());
        if open is Some {
            let r = open->0;
            assert(closed_run_extent(r).offset % 2048 == 0);
        }
        let x = t.last();
        assert(sector_offset(x) % 2048 == 0);
    }
}

/// Every extent of a file starts on a sector boundary of the image.
pub proof fn law_extents_start_on_sectors(t: Seq<u32>, size: u64)
    requires
        t.len() <= u32::MAX,
    ensures
        forall|i: int| 0 <= i < spec_file_extents(t, size).len() ==> #[trigger] spec_file_extents(t, size)[i].offset % 2048 == 0,
{
    lemma_runs_on_sectors(t);
    if t.len() > 0 {
        assert(sector_offset(t[0]) % 2048 == 0);
    }
    let (closed, open) = spec_runs(t);
    if open is Some {
        let all = closed.push(last_run_extent(open->0, size));
        assert forall|i: int| 0 <= i < all.len() implies #[trigger] all[i].offset % 2048 == 0 by {
            if i < closed.len() {
                assert(all[i] == closed[i]);
            }
        }
    }
}

/// The runs of `t` as [`spec_runs`] finds them, recorded as runs rather than
/// as extents: the runs already ended and the run still open.
pub open spec fn spec_run_list(t: Seq<u32>) -> (Seq<OpenRun>, Option<OpenRun>)
    decreases t.len(),
{
    if t.len() == 0 {
        (Seq::empty(), None)
    } else {
        let (closed, open) = spec_run_list(t.drop_last());
        let x = t.last();
        if open is Some && x as int == open->0.start_lba + open->0.len {
            (closed, Some(OpenRun { len: (open->0.len + 1) as u32, ..open->0 }))
        } else {
            let closed2 = match open {
                Some(r) => closed.push(r),
                None => closed,
            };
            let open2 = if x != 0 {
                Some(OpenRun { start_block: (t.len() - 1) as u32, start_lba: x, len: 1 })
            } else {
                None
            };
            (closed2, open2)
        }
    }
}

/// The run `r` is a run of `t`: its blocks lie in `t` at consecutive addresses.
pub open spec fn run_in(t: Seq<u32>, r: OpenRun) -> bool {
    &&& r.len >= 1
    &&& r.start_lba != 0
    &&& r.start_block + r.len <= t.len()
    &&& forall|d: int| 0 <= d < r.len ==> #[trigger] t[r.start_block + d] == r.start_lba + d
}

/// Run `a` ends at or before the block where run `b` starts.
pub open spec fn run_before(a: OpenRun, b: OpenRun) -> bool {
    a.start_block + a.len <= b.start_block
}

proof fn lemma_run_list(t: Seq<u32>)
    requires
        t.len() <= u32::MAX,
    ensures
        spec_runs(t).0 == spec_run_list(t).0.map_values(|r: OpenRun| closed_run_extent(r)),
        spec_runs(t).1 == spec_run_list(t).1,
        forall|k: int| 0 <= k < spec_run_list(t).0.len() ==> run_in(t, #[trigger] spec_run_list(t).0[k]),
        forall|j: int, k: int| 0 <= j < k < spec_run_list(t).0.len()
            ==> run_before(#[trigger] spec_run_list(t).0[j], #[trigger] spec_run_list(t).0[k]),
        spec_run_list(t).1 matches Some(r) ==> {
            &&& run_in(t, r)
            &&& r.start_block + r.len == t.len()
            &&& forall|k: int| 0 <= k < spec_run_list(t).0.len() ==> run_before(#[trigger] spec_run_list(t).0[k], r)
        },
    decreases t.len(),
{
    if t.len() > 0 {
        let p = t.drop_last();
        lemma_run_list(p);
        let (rs, o) = spec_run_list(p);
        let x = t.last();
        assert(x == t[t.len() - 1]);
        assert forall|i: int| 0 <= i < p.len() implies #[trigger] t[i] == p[i] by {}
        assert forall|k: int| 0 <= k < rs.len() implies run_in(t, #[trigger] rs[k]) by {
            let r = rs[k];
            assert(run_in(p, r));
            assert forall|d: int| 0 <= d < r.len implies #[trigger] t[r.start_block + d] == r.start_lba + d by {
                assert(p[r.start_block + d] == r.start_lba + d);
            }
        }
        if o is Some && x as int == o->0.start_lba + o->0.len {
            let r = o->0;
            let r2 = OpenRun { len: (r.len + 1) as u32, ..r };
            assert forall|d: int| 0 <= d < r2.len implies #[trigger] t[r2.start_block + d] == r2.start_lba + d by {
                if d < r.len {
                    assert(p[r.start_block + d] == r.start_lba + d);
                }
            }
        } else {
            let rs2 = match o {
                Some(r) => rs.push(r),
                None => rs,
            };
            if o is Some {
                let r = o->0;
                assert forall|d: int| 0 <= d < r.len implies #[trigger] t[r.start_block + d] == r.start_lba + d by {
                    assert(p[r.start_block + d] == r.start_lba + d);
                }
                assert(rs.push(r).map_values(|r: OpenRun| closed_run_extent(r))
                    =~= rs.map_values(|r: OpenRun| closed_run_extent(r)).push(closed_run_extent(r)));
                assert forall|k: int| 0 <= k < rs2.len() implies run_in(t, #[trigger] rs2[k]) by {
                    if k < rs.len() {
                        assert(rs2[k] == rs[k]);
                    }
                }
                assert forall|j: int, k: int| 0 <= j < k < rs2.len()
                    implies run_before(#[trigger] rs2[j], #[trigger] rs2[k]) by {
                    assert(rs2[j] == rs[j]);
                    if k < rs.len() {
                        assert(rs2[k] == rs[k]);
                    }
                }
            }
            if x != 0 {
                let n = OpenRun { start_block: (t.len() - 1) as u32, start_lba: x, len: 1 };
                assert forall|d: int| 0 <= d < n.len implies #[trigger] t[n.start_block + d] == n.start_lba + d by {}
                assert forall|k: int| 0 <= k < rs2.len() implies run_before(#[trigger] rs2[k], n) by {
                    if k < rs.len() {
                        assert(rs2[k] == rs[k]);
                    }
                }
            }
        }
    }
}

/// The addresses of `t` other than 0 are pairwise distinct.
pub open spec fn distinct_addresses(t: Seq<u32>) -> bool {
    forall|i: int, j: int| 0 <= i < t.len() && 0 <= j < t.len() && i != j && t[i] != 0 ==> #[trigger] t[i] != #[trigger] t[j]
}

proof fn lemma_runs_apart(t: Seq<u32>, a: OpenRun, b: OpenRun)
    requires
        distinct_addresses(t),
        run_in(t, a),
        run_in(t, b),
        run_before(a, b),
    ensures
        a.start_lba + a.len <= b.start_lba || b.start_lba + b.len <= a.start_lba,
{
    if a.start_lba <= b.start_lba < a.start_lba + a.len {
        let d = b.start_lba - a.start_lba;
        assert(t[a.start_block + d] == a.start_lba + d);
        assert(t[b.start_block + 0] == b.start_lba + 0);
    } else if b.start_lba <= a.start_lba < b.start_lba + b.len {
        let d = a.start_lba - b.start_lba;
        assert(t[b.start_block + d] == b.start_lba + d);
        assert(t[a.start_block + 0] == a.start_lba + 0);
    }
}

/// The byte ranges of extents `a` and `b` do not overlap.
pub open spec fn extents_apart(a: IsoExtent, b: IsoExtent) -> bool {
    a.offset + a.length <= b.offset || b.offset + b.length <= a.offset
}

/// When no address is shared by two blocks of a file that has as many blocks
/// as its size needs, no two of its extents overlap in the image.
pub proof fn law_extents_do_not_overlap(t: Seq<u32>, size: u64)
    requires
        t.len() <= u32::MAX,
        t.len() == (size as int + 2047) / 2048,
        distinct_addresses(t),
    ensures
        forall|i: int, j: int| 0 <= i < j < spec_file_extents(t, size).len()
            ==> extents_apart(#[trigger] spec_file_extents(t, size)[i], #[trigger] spec_file_extents(t, size)[j]),
{
    if t.len() >= 2 && t[0] != 0 && t.last() as int != t[0] + t.len() - 1 {
        lemma_run_list(t);
        let (rs, o) = spec_run_list(t);
        let closed = spec_runs(t).0;
        let all = spec_file_extents(t, size);
        assert forall|i: int, j: int| 0 <= i < j < all.len() implies extents_apart(#[trigger] all[i], #[trigger] all[j]) by {
            assert(all[i] == closed[i]);
            assert(closed[i] == closed_run_extent(rs[i]));
            let a = rs[i];
            if j < closed.len() {
                assert(all[j] == closed[j]);
                assert(closed[j] == closed_run_extent(rs[j]));
                lemma_runs_apart(t, a, rs[j]);
            } else {
                let r = o->0;
                assert(all[j] == last_run_extent(r, size));
                lemma_runs_apart(t, a, r);
                assert(size as int - r.start_block as int * 2048 <= r.len as int * 2048);
            }
        }
    }
}

/// The run `r` cannot be extended to the left: it starts at block 0, after a
/// block without an address, or after a block whose address is not one less.
pub open spec fn starts_run(t: Seq<u32>, r: OpenRun) -> bool {
    r.start_block == 0 || t[r.start_block - 1] == 0 || t[r.start_block as int] as int != t[r.start_block - 1] + 1
}

/// The run `r` ended before the last block, at a block whose address does not
/// continue it.
pub open spec fn ends_run(t: Seq<u32>, r: OpenRun) -> bool {
    &&& r.start_block + r.len < t.len()
    &&& t[r.start_block + r.len] as int != r.start_lba + r.len
}

proof fn lemma_runs_maximal(t: Seq<u32>)
    requires
        t.len() <= u32::MAX,
    ensures
        spec_run_list(t).1 is None && t.len() > 0 ==> t[t.len() - 1] == 0,
        forall|k: int| 0 <= k < spec_run_list(t).0.len() ==> ends_run(t, #[trigger] spec_run_list(t).0[k]),
        forall|k: int| 0 <= k < spec_run_list(t).0.len() ==> starts_run(t, #[trigger] spec_run_list(t).0[k]),
        spec_run_list(t).1 matches Some(r) ==> starts_run(t, r),
    decreases t.len(),
{
    lemma_run_list(t);
    if t.len() > 0 {
        let p = t.drop_last();
        lemma_runs_maximal(p);
        lemma_run_list(p);
        let (rs, o) = spec_run_list(p);
        let x = t.last();
        assert(x == t[t.len() - 1]);
        assert forall|i: int| 0 <= i < p.len() implies #[trigger] t[i] == p[i] by {}
        assert forall|k: int| 0 <= k < rs.len() implies ends_run(t, #[trigger] rs[k]) && starts_run(t, rs[k]) by {
            assert(ends_run(p, rs[k]));
            assert(starts_run(p, rs[k]));
            assert(run_in(p, rs[k]));
        }
        if o is Some {
            let r = o->0;
            assert(starts_run(p, r));
            assert(run_in(p, r));
            assert(p[r.start_block + (r.len - 1)] == r.start_lba + (r.len - 1));
        }
        let (rs2, o2) = spec_run_list(t);
        assert forall|k: int| 0 <= k < rs2.len() implies ends_run(t, #[trigger] rs2[k]) && starts_run(t, rs2[k]) by {
            if k < rs.len() {
                assert(rs2[k] == rs[k]);
            }
        }
    }
}

/// The extents follow the runs of consecutive addresses exactly: no run can
/// be extended to the left, and every run that is not the last ends at a block
/// whose address does not continue it.
pub proof fn law_runs_are_maximal(t: Seq<u32>)
    requires
        t.len() <= u32::MAX,
    ensures
        spec_runs(t).0 == spec_run_list(t).0.map_values(|r: OpenRun| closed_run_extent(r)),
        spec_runs(t).1 == spec_run_list(t).1,
        forall|k: int| 0 <= k < spec_run_list(t).0.len() ==> ends_run(t, #[trigger] spec_run_list(t).0[k]),
        forall|k: int| 0 <= k < spec_run_list(t).0.len() ==> starts_run(t, #[trigger] spec_run_list(t).0[k]),
        spec_run_list(t).1 matches Some(r) ==> starts_run(t, r),
{
    lemma_run_list(t);
    lemma_runs_maximal(t);
}

/// Blocks a run set aside: the runs ended so far lie before this block.
spec fn covered_limit(t: Seq<u32>) -> int {
    match spec_runs(t).1 {
        Some(r) => r.start_block as int,
        None => if t.len() == 0 { 0 } else { t.len() - 1 },
    }
}

proof fn lemma_runs_total_bound(t: Seq<u32>)
    requires
        t.len() <= u32::MAX,
    ensures
        total_length(spec_runs(t).0) <= 2048 * covered_limit(t),
        spec_runs(t).1 matches Some(r) ==> r.start_block + r.len == t.len(),
    decreases t.len(),
{
    lemma_open_run_shape(t);
    if t.len() > 0 {
        let p = t.drop_last();
        lemma_runs_total_bound(p);
        lemma_open_run_shape(p);
        let (closed, open) = spec_runs(p);
        let x = t.last();
        if !(open is Some && x as int == open->0.start_lba + open->0.len) {
            if open is Some {
                let r = open->0;
                let c2 = closed.push(closed_run_extent(r));
                assert(c2.drop_last() =~= closed);
                assert(total_length(c2) == total_length(closed) + r.len as int * 2048);
            }
        }
    }
}

/// For a file with as many blocks as its size needs, every extent is
/// non-empty and the extents together hold at most the file's size.
pub proof fn law_extents_nonempty_and_within_size(t: Seq<u32>, size: u64)
    requires
        t.len() <= u32::MAX,
        t.len() == (size as int + 2047) / 2048,
    ensures
        forall|i: int| 0 <= i < spec_file_extents(t, size).len() ==> #[trigger] spec_file_extents(t, size)[i].length > 0,
        total_length(spec_file_extents(t, size)) <= size,
{
    let all = spec_file_extents(t, size);
    if t.len() == 0 || t[0] == 0 {
        assert(total_length(all) == 0);
    } else if t.len() == 1 || t.last() as int == t[0] + t.len() - 1 {
        assert(all.drop_last() =~= Seq::<IsoExtent>::empty());
        assert(total_length(Seq::<IsoExtent>::empty()) == 0);
    } else {
        lemma_run_list(t);
        lemma_runs_total_bound(t);
        let (rs, o) = spec_run_list(t);
        let closed = spec_runs(t).0;
        assert forall|i: int| 0 <= i < all.len() implies #[trigger] all[i].length > 0 by {
            if i < closed.len() {
                assert(all[i] == closed[i]);
                assert(closed[i] == closed_run_extent(rs[i]));
                assert(run_in(t, rs[i]));
            }
        }
        if o is Some {
            let c2 = closed.push(last_run_extent(o->0, size));
            assert(c2.drop_last() =~= closed);
        }
    }
}

/// Where byte `p` of a file lies in the image, reading the file through
/// `extents` in order: the extent that holds it and the offset within that
/// extent; `None` when the extents end before byte `p`.
pub open spec fn image_offset_of(extents: Seq<IsoExtent>, p: int) -> Option<int>
    decreases extents.len(),
{
    if extents.len() == 0 {
        None
    } else {
        let before = total_length(extents.drop_last());
        if p < before {
            image_offset_of(extents.drop_last(), p)
        } else if p < before + extents.last().length {
            Some(extents.last().offset + (p - before))
        } else {
            None
        }
    }
}

/// Reading through `extents` finds each byte `q < limit` at the image offset
/// of its own block in `t`.
spec fn maps_bytes(extents: Seq<IsoExtent>, t: Seq<u32>, limit: int) -> bool {
    forall|q: int| 0 <= q < limit ==> #[trigger] image_offset_of(extents, q) == Some(t[q / 2048] as int * 2048 + q % 2048)
}

/// A byte `q` of block `q / 2048`, which lies `q / 2048 - start_block` blocks
/// into a run that starts at block `start_block` and address `start_lba`.
proof fn lemma_byte_in_run(q: int, start_block: int, start_lba: int)
    requires
        0 <= start_block * 2048 <= q,
    ensures
        (start_lba + (q / 2048 - start_block)) * 2048 + q % 2048 == start_lba * 2048 + (q - start_block * 2048),
        start_block <= q / 2048,
{
    assert(q == (q / 2048) * 2048 + q % 2048);
    assert((start_lba + (q / 2048 - start_block)) * 2048 == start_lba * 2048 + (q / 2048) * 2048 - start_block * 2048);
}

/// The runs ended so far map every byte before the open run's first block to
/// its own block's place in the image.
proof fn lemma_closed_runs_map_bytes(t: Seq<u32>)
    requires
        1 <= t.len() <= u32::MAX,
        forall|i: int| 0 <= i < t.len() ==> t[i] != 0,
    ensures
        spec_runs(t).1 is Some,
        maps_bytes(spec_runs(t).0, t, spec_runs(t).1->0.start_block as int * 2048),
    decreases t.len(),
{
    lemma_runs_cover_blocks(t);
    let p = t.drop_last();
    assert(t.last() == t[t.len() - 1]);
    if p.len() > 0 {
        assert forall|i: int| 0 <= i < p.len() implies p[i] != 0 by {
            assert(p[i] == t[i]);
        }
        lemma_closed_runs_map_bytes(p);
        lemma_runs_cover_blocks(p);
        lemma_open_run_shape(p);
        lemma_run_list(p);
        let (closed, open) = spec_runs(p);
        let r = open->0;
        assert(run_in(p, r));
        let lim = r.start_block as int * 2048;
        if t.last() as int == r.start_lba + r.len {
            assert forall|q: int| 0 <= q < lim implies #[trigger] image_offset_of(closed, q) == Some(t[q / 2048] as int * 2048 + q % 2048) by {
                assert(image_offset_of(closed, q) == Some(p[q / 2048] as int * 2048 + q % 2048));
                assert(p[q / 2048] == t[q / 2048]);
            }
        } else {
            let c2 = closed.push(closed_run_extent(r));
            assert(c2.drop_last() =~= closed);
            let lim2 = (t.len() - 1) * 2048;
            assert forall|q: int| 0 <= q < lim2 implies #[trigger] image_offset_of(c2, q) == Some(t[q / 2048] as int * 2048 + q % 2048) by {
                if q < lim {
                    assert(image_offset_of(closed, q) == Some(p[q / 2048] as int * 2048 + q % 2048));
                    assert(p[q / 2048] == t[q / 2048]);
                } else {
                    lemma_byte_in_run(q, r.start_block as int, r.start_lba as int);
                    let d = q / 2048 - r.start_block;
                    assert(q / 2048 < t.len() - 1);
                    assert(p[r.start_block + d] == r.start_lba + d);
                    assert(p[q / 2048] == t[q / 2048]);
                }
            }
        }
    }
}

/// When every block of a file of `size` bytes has an address and the file has
/// as many blocks as its size needs, reading the file through its extents
/// finds each byte `p` at the image offset of its own block:
/// `t[p / 2048] * 2048 + p % 2048`. Left out are the files whose last block
/// lies exactly where a contiguous file's would while a block between lies
/// elsewhere: such a file is taken to be one run from its first and last
/// block alone.
pub proof fn law_bytes_map_to_their_blocks(t: Seq<u32>, size: u64)
    requires
        t.len() <= u32::MAX,
        t.len() == (size as int + 2047) / 2048,
        forall|i: int| 0 <= i < t.len() ==> t[i] != 0,
        t.len() >= 2 && t.last() as int == t[0] + t.len() - 1
            ==> forall|i: int| 0 <= i < t.len() ==> #[trigger] t[i] as int == t[0] + i,
    ensures
        forall|p: int| 0 <= p < size
            ==> #[trigger] image_offset_of(spec_file_extents(t, size), p) == Some(t[p / 2048] as int * 2048 + p % 2048),
{
    let n = t.len();
    let all = spec_file_extents(t, size);
    if n >= 1 {
        assert(t.last() == t[n - 1]);
        assert(t[0] != 0);
        if n == 1 || t.last() as int == t[0] + n - 1 {
            assert(all.drop_last() =~= Seq::<IsoExtent>::empty());
            assert(total_length(Seq::<IsoExtent>::empty()) == 0);
            assert forall|p: int| 0 <= p < size implies #[trigger] image_offset_of(all, p) == Some(t[p / 2048] as int * 2048 + p % 2048) by {
                lemma_byte_in_run(p, 0, t[0] as int);
                assert(p / 2048 < n);
                if n >= 2 {
                    assert(t[p / 2048] as int == t[0] + p / 2048);
                }
            }
        } else {
            lemma_closed_runs_map_bytes(t);
            lemma_runs_cover_blocks(t);
            lemma_open_run_shape(t);
            lemma_run_list(t);
            let (closed, open) = spec_runs(t);
            let r = open->0;
            assert(run_in(t, r));
            let lim = r.start_block as int * 2048;
            assert(all == closed.push(last_run_extent(r, size)));
            assert(all.drop_last() =~= closed);
            assert(lim < size);
            assert forall|p: int| 0 <= p < size implies #[trigger] image_offset_of(all, p) == Some(t[p / 2048] as int * 2048 + p % 2048) by {
                if p < lim {
                    assert(image_offset_of(closed, p) == Some(t[p / 2048] as int * 2048 + p % 2048));
                } else {
                    lemma_byte_in_run(p, r.start_block as int, r.start_lba as int);
                    let d = p / 2048 - r.start_block;
                    assert(p / 2048 < n);
                    assert(t[r.start_block + d] == r.start_lba + d);
                    assert(all.last() == last_run_extent(r, size));
                    assert(all.last().length == size - lim);
                    assert(all.last().offset == r.start_lba as int * 2048);
                }
            }
        }
    }
}

/// A file whose last block lies exactly where a contiguous file's would is
/// taken whole from its first block's sector after two lookups, of its first
/// and its last block, whatever the blocks between them hold.
pub proof fn law_two_lookups_for_contiguous_ends(t: Seq<u32>, size: u64)
    requires
        2 <= t.len() <= u32::MAX,
        t.len() == spec_block_count(size),
        t[0] != 0,
        t[t.len() - 1] as int == t[0] + t.len() - 1,
    ensures
        drive_by_table(ExtentScanView::initial(size), t, 2)
            == (ExtentScanView { size, total: t.len() as u32, stage: ScanStage::Finished { extents: seq![whole_file_extent(t[0], size)] } }),
        spec_file_extents(t, size) == seq![whole_file_extent(t[0], size)],
{
    let n = t.len();
    let v0 = ExtentScanView::initial(size);
    let v1 = v0.after(t[0]);
    let v2 = v1.after(t[n - 1]);
    assert(drive_by_table(v0, t, 2) == drive_by_table(v1, t, 1));
    assert(drive_by_table(v1, t, 1) == drive_by_table(v2, t, 0));
    assert(t.last() == t[n - 1]);
}

} // verus!
