//! Finding the M2TS stream files of `/BDMV/STREAM/` on a Blu-ray disc image,
//! and picking the main title among them.
//!
//! The directory is read through the UDF reader one call at a time; the
//! decisions between the calls are the step function [`find_m2ts_files`],
//! which takes what the last call returned and says which call comes next.

use vstd::prelude::*;
use crate::extents::{
    drive_by_table, law_scan_by_table, spec_block_count, spec_file_extents, ExtentScan, ExtentScanView,
    ExtentStep, IsoExtent, ScanStage,
};

verus! {

/// The directory of a Blu-ray disc that holds the stream files.
pub const STREAM_DIR: &'static str = "/BDMV/STREAM";

/// Directory-entry type of a regular file, as the UDF reader reports it.
pub const UDF_DT_REG: u32 = 2;

/// Location and size of a single M2TS stream file inside the disc image.
#[derive(Clone, Debug)]
pub struct M2tsFile {
    pub filename: String,
    /// Total file size in bytes.
    pub size: u64,
    /// The extents holding the file's bytes, in file order.
    pub extents: Vec<IsoExtent>,
}

/// The abstract value of an [`M2tsFile`].
pub struct M2tsFileView {
    pub filename: Seq<char>,
    pub size: u64,
    pub extents: Seq<IsoExtent>,
}

impl View for M2tsFile {
    type V = M2tsFileView;

    open spec fn view(&self) -> M2tsFileView {
        M2tsFileView { filename: self.filename@, size: self.size, extents: self.extents@ }
    }
}

/// The byte `c` with an ASCII capital turned into the small letter.
pub open spec fn ascii_lower(c: u8) -> u8 {
    if 65 <= c <= 90 {
        (c + 32) as u8
    } else {
        c
    }
}

/// The bytes `b` end in `.m2ts`, letters in either case.
pub open spec fn has_m2ts_suffix(b: Seq<u8>) -> bool {
    let n = b.len() as int;
    &&& n >= 5
    &&& ascii_lower(b[n - 5]) == 0x2e  // '.'
    &&& ascii_lower(b[n - 4]) == 0x6d  // 'm'
    &&& ascii_lower(b[n - 3]) == 0x32  // '2'
    &&& ascii_lower(b[n - 2]) == 0x74  // 't'
    &&& ascii_lower(b[n - 1]) == 0x73  // 's'
}

fn lower_byte(c: u8) -> (r: u8)
    ensures
        r == ascii_lower(c),
{
    if 65 <= c && c <= 90 {
        c + 32
    } else {
        c
    }
}

/// Whether the file name `name` ends in `.m2ts`, ignoring ASCII case.
pub fn is_m2ts_name(name: &str) -> (b: bool)
    ensures
        b == has_m2ts_suffix(vstd::utf8::encode_utf8(name@)),
        b == ends_in_m2ts_bytes(vstd::utf8::encode_utf8(name@)),
{
    proof {
        law_m2ts_suffix_is_last_five_bytes(vstd::utf8::encode_utf8(name@));
    }
    let bytes = name.as_bytes();
    let n = bytes.len();
    if n < 5 {
        return false;
    }
    lower_byte(bytes[n - 5]) == 0x2e && lower_byte(bytes[n - 4]) == 0x6d && lower_byte(bytes[n - 3])
        == 0x32 && lower_byte(bytes[n - 2]) == 0x74 && lower_byte(bytes[n - 1]) == 0x73
}

/// A directory entry that names a stream file: a regular file whose name
/// ends in `.m2ts`.
pub open spec fn is_stream_entry_spec(d_type: u32, name: Seq<u8>) -> bool {
    d_type == UDF_DT_REG && has_m2ts_suffix(name)
}

/// Whether the directory entry of type `d_type` named `name` is a stream file.
pub fn is_stream_entry(d_type: u32, name: &str) -> (b: bool)
    ensures
        b == is_stream_entry_spec(d_type, vstd::utf8::encode_utf8(name@)),
{
    d_type == UDF_DT_REG && is_m2ts_name(name)
}

/// The path, on the disc, of the stream file named `name`.
pub fn stream_file_path(name: &str) -> (p: String)
    ensures
        p@ == "/BDMV/STREAM/"@ + name@,
{
    let mut p = String::from_str("/BDMV/STREAM/");
    p.append(name);
    p
}

/// Index of the largest of `sizes`; of several equally large, the last.
pub open spec fn main_index(sizes: Seq<u64>) -> int
    decreases sizes.len(),
{
    if sizes.len() <= 1 {
        0
    } else {
        let k = main_index(sizes.drop_last());
        if sizes.last() >= sizes[k] {
            sizes.len() - 1
        } else {
            k
        }
    }
}

/// The sizes of `files`, in order.
pub open spec fn file_sizes(files: Seq<M2tsFile>) -> Seq<u64> {
    files.map_values(|f: M2tsFile| f.size)
}

/// Selects the main title: the largest file (the last one of several equally
/// large). Menu clips and extras are small; the main feature is the largest.
pub fn select_main_m2ts(files: &[M2tsFile]) -> (r: Option<&M2tsFile>)
    ensures
        r is None <==> files@.len() == 0,
        r matches Some(f) ==> *f == files@[main_index(file_sizes(files@))],
        r matches Some(f) ==> exists|k: int| 0 <= k < files@.len() && *f == files@[k] && #[trigger] is_main_title(files@, k),
{
    if files.len() == 0 {
        return None;
    }
    let mut best: usize = 0;
    let mut i: usize = 1;
    while i < files.len()
        invariant
            1 <= i <= files@.len(),
            best as int == main_index(file_sizes(files@).take(i as int)),
            0 <= best < i,
        decreases files@.len() - i,
    {
        proof {
            let s = file_sizes(files@);
            assert(s.take(i + 1int).drop_last() =~= s.take(i as int));
            assert(s.take(i + 1int).last() == s[i as int]);
            assert(s.take(i as int)[best as int] == s[best as int]);
        }
        if files[i].size >= files[best].size {
            best = i;
        }
        i = i + 1;
    }
    proof {
        assert(file_sizes(files@).take(files@.len() as int) =~= file_sizes(files@));
        law_main_title_is_largest_file(files@);
    }
    Some(&files[best])
}

/// The file picked as main title is at least as large as every other, and
/// larger than every file after it.
pub proof fn law_main_is_largest(sizes: Seq<u64>)
    requires
        sizes.len() >= 1,
    ensures
        0 <= main_index(sizes) < sizes.len(),
        forall|j: int| 0 <= j < sizes.len() ==> #[trigger] sizes[j] <= sizes[main_index(sizes)],
        forall|j: int| main_index(sizes) < j < sizes.len() ==> #[trigger] sizes[j] < sizes[main_index(sizes)],
    decreases sizes.len(),
{
    if sizes.len() > 1 {
        let p = sizes.drop_last();
        law_main_is_largest(p);
        assert forall|j: int| 0 <= j < p.len() implies #[trigger] sizes[j] == p[j] by {}
    }
}

/// What the UDF reader returned for the call that the scan asked for.
pub enum ScanEvent {
    /// The next directory entry: its type and its name.
    Entry { d_type: u32, name: String },
    /// The directory has no more entries.
    EndOfDirectory,
    /// Whether the stream file could be opened.
    Opened(bool),
    /// The size that the reader reports for the open file.
    FileSize(i64),
    /// The disc address of the block of the open file that was asked for.
    BlockLba(u32),
}

/// The call to the UDF reader that the scan asks for next.
pub enum ScanAction {
    /// Read the next entry of the stream directory.
    ReadEntry,
    /// Open the file at this path.
    OpenFile(String),
    /// Ask for the size of the open file.
    QuerySize,
    /// Ask for the disc address of this block of the open file.
    QueryLba(u32),
    /// Close the open file, then read the next directory entry.
    CloseFileThenReadEntry,
    /// Stop: all stream files are found.
    Finish,
}

pub enum ScanEventView {
    Entry { d_type: u32, name: Seq<char> },
    EndOfDirectory,
    Opened(bool),
    FileSize(i64),
    BlockLba(u32),
}

pub enum ScanActionView {
    ReadEntry,
    OpenFile(Seq<char>),
    QuerySize,
    QueryLba(u32),
    CloseFileThenReadEntry,
    Finish,
}

impl View for ScanEvent {
    type V = ScanEventView;

    open spec fn view(&self) -> ScanEventView {
        match self {
            ScanEvent::Entry { d_type, name } => ScanEventView::Entry { d_type: *d_type, name: name@ },
            ScanEvent::EndOfDirectory => ScanEventView::EndOfDirectory,
            ScanEvent::Opened(b) => ScanEventView::Opened(*b),
            ScanEvent::FileSize(s) => ScanEventView::FileSize(*s),
            ScanEvent::BlockLba(l) => ScanEventView::BlockLba(*l),
        }
    }
}

impl View for ScanAction {
    type V = ScanActionView;

    open spec fn view(&self) -> ScanActionView {
        match self {
            ScanAction::ReadEntry => ScanActionView::ReadEntry,
            ScanAction::OpenFile(p) => ScanActionView::OpenFile(p@),
            ScanAction::QuerySize => ScanActionView::QuerySize,
            ScanAction::QueryLba(b) => ScanActionView::QueryLba(*b),
            ScanAction::CloseFileThenReadEntry => ScanActionView::CloseFileThenReadEntry,
            ScanAction::Finish => ScanActionView::Finish,
        }
    }
}

/// Where the scan of the stream directory stands.
pub enum DirStage {
    /// Between files: the next directory entry is wanted.
    Listing,
    /// The stream file `name` is being opened.
    Opening { name: Seq<char> },
    /// The size of the open stream file `name` is wanted.
    Sizing { name: Seq<char> },
    /// The extents of the open stream file `name` of `size` bytes are being built.
    Scanning { name: Seq<char>, size: u64, extents: ExtentScanView },
    /// The directory is exhausted.
    Done,
}

/// The abstract state of an [`M2tsScan`]: its stage and the files found so far.
pub struct M2tsScanView {
    pub stage: DirStage,
    pub files: Seq<M2tsFileView>,
}

/// The path on the disc of the stream file named `name`.
pub open spec fn stream_path(name: Seq<char>) -> Seq<char> {
    "/BDMV/STREAM/"@ + name
}

/// A found stream file: its name ends in `.m2ts` and its size is positive.
pub open spec fn is_found_file(f: M2tsFileView) -> bool {
    &&& has_m2ts_suffix(vstd::utf8::encode_utf8(f.filename))
    &&& f.size > 0
}

impl M2tsScanView {
    /// The call that the scan asks for while in this state.
    pub open spec fn pending(self) -> ScanActionView {
        match self.stage {
            DirStage::Listing => ScanActionView::ReadEntry,
            DirStage::Opening { name } => ScanActionView::OpenFile(stream_path(name)),
            DirStage::Sizing { .. } => ScanActionView::QuerySize,
            DirStage::Scanning { extents, .. } => match extents.next_step() {
                ExtentStep::Lookup(b) => ScanActionView::QueryLba(b),
                ExtentStep::Done => ScanActionView::CloseFileThenReadEntry,
            },
            DirStage::Done => ScanActionView::Finish,
        }
    }

    /// Back between files, with the file `name` of `size` bytes and the
    /// finished extent scan `ex` added to the files found.
    pub open spec fn file_done(self, name: Seq<char>, size: u64, ex: ExtentScanView) -> M2tsScanView {
        let extents = match ex.stage {
            ScanStage::Finished { extents } => extents,
            _ => Seq::empty(),
        };
        M2tsScanView {
            stage: DirStage::Listing,
            files: self.files.push(M2tsFileView { filename: name, size, extents }),
        }
    }

    /// The extent scan `ex` of file `name` of `size` bytes has moved on: record
    /// the file when its extents are known, else keep asking for blocks.
    pub open spec fn extents_moved(self, name: Seq<char>, size: u64, ex: ExtentScanView) -> (M2tsScanView, ScanActionView) {
        if ex.is_finished() {
            (self.file_done(name, size, ex), ScanActionView::CloseFileThenReadEntry)
        } else {
            let next = M2tsScanView { stage: DirStage::Scanning { name, size, extents: ex }, files: self.files };
            (next, next.pending())
        }
    }

    /// The state after `event`, and the call asked for next. An event that
    /// does not answer the pending call changes nothing.
    pub open spec fn step(self, event: ScanEventView) -> (M2tsScanView, ScanActionView) {
        match (self.stage, event) {
            (DirStage::Listing, ScanEventView::Entry { d_type, name }) =>
                if is_stream_entry_spec(d_type, vstd::utf8::encode_utf8(name)) {
                    (M2tsScanView { stage: DirStage::Opening { name }, files: self.files },
                     ScanActionView::OpenFile(stream_path(name)))
                } else {
                    (self, ScanActionView::ReadEntry)
                },
            (DirStage::Listing, ScanEventView::EndOfDirectory) =>
                (M2tsScanView { stage: DirStage::Done, files: self.files }, ScanActionView::Finish),
            (DirStage::Opening { name }, ScanEventView::Opened(ok)) =>
                if ok {
                    (M2tsScanView { stage: DirStage::Sizing { name }, files: self.files }, ScanActionView::QuerySize)
                } else {
                    (M2tsScanView { stage: DirStage::Listing, files: self.files }, ScanActionView::ReadEntry)
                },
            (DirStage::Sizing { name }, ScanEventView::FileSize(s)) =>
                if s <= 0 {
                    (M2tsScanView { stage: DirStage::Listing, files: self.files },
                     ScanActionView::CloseFileThenReadEntry)
                } else {
                    self.extents_moved(name, s as u64, ExtentScanView::initial(s as u64))
                },
            (DirStage::Scanning { name, size, extents }, ScanEventView::BlockLba(lba)) =>
                self.extents_moved(name, size, extents.after(lba)),
            _ => (self, self.pending()),
        }
    }
}

enum Stage {
    Listing,
    Opening { name: String },
    Sizing { name: String },
    Scanning { name: String, size: u64, extents: ExtentScan },
    Done,
}

/// The scan of the stream directory for M2TS files.
pub struct M2tsScan {
    stage: Stage,
    files: Vec<M2tsFile>,
}

impl View for M2tsScan {
    type V = M2tsScanView;

    closed spec fn view(&self) -> M2tsScanView {
        let stage = match self.stage {
            Stage::Listing => DirStage::Listing,
            Stage::Opening { name } => DirStage::Opening { name: name@ },
            Stage::Sizing { name } => DirStage::Sizing { name: name@ },
            Stage::Scanning { name, size, extents } => DirStage::Scanning { name: name@, size, extents: extents@ },
            Stage::Done => DirStage::Done,
        };
        M2tsScanView { stage, files: self.files@.map_values(|f: M2tsFile| f@) }
    }
}

impl M2tsScan {
    /// Internal consistency of the scan.
    #[verifier::type_invariant]
    spec fn inv(&self) -> bool {
        &&& self.stage matches Stage::Scanning { size, extents, .. } ==> {
            &&& !extents@.is_finished()
            &&& extents@.size == size
        }
    }

    /// A scan that has found nothing yet and wants the first directory entry.
    pub fn new() -> (s: M2tsScan)
        ensures
            s@ == (M2tsScanView { stage: DirStage::Listing, files: Seq::empty() }),
    {
        let s = M2tsScan { stage: Stage::Listing, files: Vec::new() };
        assert(s@.files =~= Seq::<M2tsFileView>::empty());
        s
    }

    /// The call the scan asks for now.
    pub fn pending_action(&self) -> (a: ScanAction)
        ensures
            a@ == self@.pending(),
    {
        proof {
            use_type_invariant(self);
        }
        match &self.stage {
            Stage::Listing => ScanAction::ReadEntry,
            Stage::Opening { name } => ScanAction::OpenFile(stream_file_path(name.as_str())),
            Stage::Sizing { .. } => ScanAction::QuerySize,
            Stage::Scanning { extents, .. } => match extents.next_step() {
                ExtentStep::Lookup(b) => ScanAction::QueryLba(b),
                ExtentStep::Done => ScanAction::CloseFileThenReadEntry,
            },
            Stage::Done => ScanAction::Finish,
        }
    }

    /// The stream files found.
    pub fn into_files(self) -> (v: Vec<M2tsFile>)
        ensures
            v@.map_values(|f: M2tsFile| f@) == self@.files,
    {
        self.files
    }

    fn after_extents(self, name: String, size: u64, extents: ExtentScan) -> (r: (M2tsScan, ScanAction))
        requires
            self.stage is Listing,
            extents@.size == size,
        ensures
            (r.0@, r.1@) == self@.extents_moved(name@, size, extents@),
    {
        if extents.is_finished() {
            let ghost ex = extents@;
            let mut files = self.files;
            let ghost old_files = files@;
            files.push(M2tsFile { filename: name, size, extents: extents.into_extents() });
            let s = M2tsScan { stage: Stage::Listing, files };
            assert(s@.files =~= self@.files.push(M2tsFileView { filename: name@, size, extents: ex.stage->Finished_extents }));
            (s, ScanAction::CloseFileThenReadEntry)
        } else {
            let s = M2tsScan { stage: Stage::Scanning { name, size, extents }, files: self.files };
            let a = s.pending_action();
            (s, a)
        }
    }
}

/// One step of finding the M2TS files of the stream directory: takes what the
/// UDF reader returned for the pending call and gives the scan's next state
/// and the call it asks for next.
pub fn find_m2ts_files(scan: M2tsScan, event: ScanEvent) -> (r: (M2tsScan, ScanAction))
    ensures
        (r.0@, r.1@) == scan@.step(event@),
{
    proof {
        use_type_invariant(&scan);
    }
    let M2tsScan { stage, files } = scan;
    match (stage, event) {
        (Stage::Listing, ScanEvent::Entry { d_type, name }) => {
            if is_stream_entry(d_type, name.as_str()) {
                let path = stream_file_path(name.as_str());
                (M2tsScan { stage: Stage::Opening { name }, files }, ScanAction::OpenFile(path))
            } else {
                (M2tsScan { stage: Stage::Listing, files }, ScanAction::ReadEntry)
            }
        },
        (Stage::Listing, ScanEvent::EndOfDirectory) => {
            (M2tsScan { stage: Stage::Done, files }, ScanAction::Finish)
        },
        (Stage::Opening { name }, ScanEvent::Opened(ok)) => {
            if ok {
                (M2tsScan { stage: Stage::Sizing { name }, files }, ScanAction::QuerySize)
            } else {
                (M2tsScan { stage: Stage::Listing, files }, ScanAction::ReadEntry)
            }
        },
        (Stage::Sizing { name }, ScanEvent::FileSize(s)) => {
            if s <= 0 {
                (M2tsScan { stage: Stage::Listing, files }, ScanAction::CloseFileThenReadEntry)
            } else {
                let size = s as u64;
                let base = M2tsScan { stage: Stage::Listing, files };
                base.after_extents(name, size, ExtentScan::new(size))
            }
        },
        (Stage::Scanning { name, size, extents }, ScanEvent::BlockLba(lba)) => {
            let mut extents = extents;
            extents.feed(lba);
            let base = M2tsScan { stage: Stage::Listing, files };
            base.after_extents(name, size, extents)
        },
        (stage, _) => {
            let s = M2tsScan { stage, files };
            let a = s.pending_action();
            (s, a)
        },
    }
}

impl M2tsScanView {
    /// Every file found is a stream file, and the file being handled has a
    /// stream file's name (and, once sized, a positive size).
    pub open spec fn consistent(self) -> bool {
        &&& forall|i: int| 0 <= i < self.files.len() ==> is_found_file(#[trigger] self.files[i])
        &&& match self.stage {
            DirStage::Opening { name } => has_m2ts_suffix(vstd::utf8::encode_utf8(name)),
            DirStage::Sizing { name } => has_m2ts_suffix(vstd::utf8::encode_utf8(name)),
            DirStage::Scanning { name, size, extents } => has_m2ts_suffix(vstd::utf8::encode_utf8(name)) && size > 0
                && !extents.is_finished(),
            _ => true,
        }
    }
}

/// Only regular files named `*.m2ts` (any case) of positive size are ever
/// reported: every step keeps the scan consistent.
pub proof fn law_scan_reports_only_streams(v: M2tsScanView, event: ScanEventView)
    requires
        v.consistent(),
    ensures
        v.step(event).0.consistent(),
{
    let n = v.step(event).0;
    assert forall|i: int| 0 <= i < n.files.len() implies is_found_file(#[trigger] n.files[i]) by {
        if i < v.files.len() {
            assert(n.files[i] == v.files[i]);
        }
    }
}

/// A file of the reader is open in this stage.
pub open spec fn holds_open_file(stage: DirStage) -> bool {
    stage is Sizing || stage is Scanning
}

/// Files are opened and closed in pairs: the scan asks to close the file
/// exactly when it leaves a stage that holds an open file; a file is held open
/// only after the reader reported it opened; a call to open leads to the stage
/// that waits for its outcome; and the scan finishes only between files.
pub proof fn law_open_files_are_closed_once(v: M2tsScanView, event: ScanEventView)
    requires
        v.consistent(),
    ensures
        ({
            let (w, a) = v.step(event);
            &&& (a is CloseFileThenReadEntry) <==> (holds_open_file(v.stage) && !holds_open_file(w.stage))
            &&& holds_open_file(w.stage) && !holds_open_file(v.stage) ==> (v.stage is Opening && event == ScanEventView::Opened(true))
            &&& a is OpenFile ==> w.stage is Opening
            &&& (a is Finish) <==> w.stage is Done
            &&& w.stage is Done ==> (v.stage is Done || v.stage is Listing)
        }),
{
}

/// An entry of the stream directory as the UDF reader presents it: its type
/// and name, whether it opens, the size reported once open, and the disc
/// address of each of its blocks.
pub struct DirEntryModel {
    pub d_type: u32,
    pub name: Seq<char>,
    pub opens: bool,
    pub size: i64,
    pub lbas: Seq<u32>,
}

/// The entry is found as a stream file: a regular `*.m2ts` file that opens
/// and has a positive size.
pub open spec fn is_found_entry(e: DirEntryModel) -> bool {
    &&& is_stream_entry_spec(e.d_type, vstd::utf8::encode_utf8(e.name))
    &&& e.opens
    &&& e.size > 0
}

/// The file recorded for the entry `e`.
pub open spec fn found_file(e: DirEntryModel) -> M2tsFileView {
    M2tsFileView { filename: e.name, size: e.size as u64, extents: spec_file_extents(e.lbas, e.size as u64) }
}

/// The files found among `entries` from index `idx` on, in directory order.
pub open spec fn found_from(entries: Seq<DirEntryModel>, idx: int) -> Seq<M2tsFileView>
    decreases entries.len() - idx,
{
    if idx < 0 || idx >= entries.len() {
        Seq::empty()
    } else if is_found_entry(entries[idx]) {
        seq![found_file(entries[idx])] + found_from(entries, idx + 1)
    } else {
        found_from(entries, idx + 1)
    }
}

/// The reader's answer to the call `a`, when `idx` entries of `entries` have
/// been read: the event and the number of entries read after it.
pub open spec fn dir_answer(entries: Seq<DirEntryModel>, idx: int, a: ScanActionView) -> (ScanEventView, int) {
    match a {
        ScanActionView::ReadEntry | ScanActionView::CloseFileThenReadEntry => if idx < entries.len() {
            (ScanEventView::Entry { d_type: entries[idx].d_type, name: entries[idx].name }, idx + 1)
        } else {
            (ScanEventView::EndOfDirectory, idx)
        },
        ScanActionView::OpenFile(_) => (ScanEventView::Opened(entries[idx - 1].opens), idx),
        ScanActionView::QuerySize => (ScanEventView::FileSize(entries[idx - 1].size), idx),
        ScanActionView::QueryLba(b) => (ScanEventView::BlockLba(entries[idx - 1].lbas[b as int]), idx),
        ScanActionView::Finish => (ScanEventView::EndOfDirectory, idx),
    }
}

/// The scan state reached from `v`, whose pending call is `a`, when the reader
/// answers each call from the directory `entries` (of which `idx` have been
/// read), for at most `fuel` calls or until the scan finishes.
pub open spec fn drive_dir(v: M2tsScanView, a: ScanActionView, entries: Seq<DirEntryModel>, idx: int, fuel: nat) -> M2tsScanView
    decreases fuel,
{
    if fuel == 0 || a is Finish {
        v
    } else {
        let (e, idx2) = dir_answer(entries, idx, a);
        let (w, a2) = v.step(e);
        drive_dir(w, a2, entries, idx2, (fuel - 1) as nat)
    }
}

/// Calls enough to scan `entries` from index `idx` on.
pub open spec fn dir_fuel(entries: Seq<DirEntryModel>, idx: int) -> nat
    decreases entries.len() - idx,
{
    if idx < 0 || idx >= entries.len() {
        1
    } else {
        entries[idx].lbas.len() + 5 + dir_fuel(entries, idx + 1)
    }
}

/// The block table of every entry that is found has one address per block.
pub open spec fn tables_fit(entries: Seq<DirEntryModel>) -> bool {
    forall|i: int| 0 <= i < entries.len() && #[trigger] is_found_entry(entries[i])
        ==> entries[i].lbas.len() == spec_block_count(entries[i].size as u64)
}

proof fn lemma_finished_scan_stays(v: ExtentScanView, t: Seq<u32>, k: nat)
    requires
        v.is_finished(),
    ensures
        drive_by_table(v, t, k) == v,
{
}

proof fn lemma_dir_scanning(
    files: Seq<M2tsFileView>,
    name: Seq<char>,
    size: u64,
    ex: ExtentScanView,
    entries: Seq<DirEntryModel>,
    idx: int,
    k: nat,
    fuel: nat,
    rest: nat,
) -> (fuel2: nat)
    requires
        1 <= idx <= entries.len(),
        !ex.is_finished(),
        drive_by_table(ex, entries[idx - 1].lbas, k).is_finished(),
        fuel >= k + rest,
    ensures
        fuel2 >= rest,
        ({
            let v = M2tsScanView { stage: DirStage::Scanning { name, size, extents: ex }, files };
            let done = M2tsScanView { stage: DirStage::Listing, files }.file_done(name, size, drive_by_table(ex, entries[idx - 1].lbas, k));
            drive_dir(v, v.pending(), entries, idx, fuel) == drive_dir(done, ScanActionView::CloseFileThenReadEntry, entries, idx, fuel2)
        }),
    decreases k,
{
    let t = entries[idx - 1].lbas;
    let v = M2tsScanView { stage: DirStage::Scanning { name, size, extents: ex }, files };
    let b = ex.next_step()->Lookup_0;
    let ex2 = ex.after(t[b as int]);
    assert(drive_by_table(ex, t, k) == drive_by_table(ex2, t, (k - 1) as nat));
    let (w, a2) = v.step(ScanEventView::BlockLba(t[b as int]));
    assert(drive_dir(v, v.pending(), entries, idx, fuel) == drive_dir(w, a2, entries, idx, (fuel - 1) as nat));
    if ex2.is_finished() {
        lemma_finished_scan_stays(ex2, t, (k - 1) as nat);
        (fuel - 1) as nat
    } else {
        lemma_dir_scanning(files, name, size, ex2, entries, idx, (k - 1) as nat, (fuel - 1) as nat, rest)
    }
}

proof fn lemma_dir_entry(files: Seq<M2tsFileView>, a: ScanActionView, entries: Seq<DirEntryModel>, idx: int, fuel: nat, rest: nat) -> (fuel2: nat)
    requires
        0 <= idx < entries.len(),
        a is ReadEntry || a is CloseFileThenReadEntry,
        tables_fit(entries),
        fuel >= entries[idx].lbas.len() + 5 + rest,
    ensures
        fuel2 >= rest,
        ({
            let v = M2tsScanView { stage: DirStage::Listing, files };
            let files2 = if is_found_entry(entries[idx]) { files.push(found_file(entries[idx])) } else { files };
            let w = M2tsScanView { stage: DirStage::Listing, files: files2 };
            ||| drive_dir(v, a, entries, idx, fuel) == drive_dir(w, ScanActionView::ReadEntry, entries, idx + 1, fuel2)
            ||| drive_dir(v, a, entries, idx, fuel) == drive_dir(w, ScanActionView::CloseFileThenReadEntry, entries, idx + 1, fuel2)
        }),
{
    let e = entries[idx];
    let v = M2tsScanView { stage: DirStage::Listing, files };
    let ev = ScanEventView::Entry { d_type: e.d_type, name: e.name };
    let (w1, a1) = v.step(ev);
    assert(drive_dir(v, a, entries, idx, fuel) == drive_dir(w1, a1, entries, idx + 1, (fuel - 1) as nat));
    if !is_stream_entry_spec(e.d_type, vstd::utf8::encode_utf8(e.name)) {
        return (fuel - 1) as nat;
    }
    let (w2, a2) = w1.step(ScanEventView::Opened(e.opens));
    assert(drive_dir(w1, a1, entries, idx + 1, (fuel - 1) as nat) == drive_dir(w2, a2, entries, idx + 1, (fuel - 2) as nat));
    if !e.opens {
        return (fuel - 2) as nat;
    }
    let (w3, a3) = w2.step(ScanEventView::FileSize(e.size));
    assert(drive_dir(w2, a2, entries, idx + 1, (fuel - 2) as nat) == drive_dir(w3, a3, entries, idx + 1, (fuel - 3) as nat));
    if e.size <= 0 {
        return (fuel - 3) as nat;
    }
    assert(is_found_entry(entries[idx]));
    let size = e.size as u64;
    let t = e.lbas;
    assert(t.len() == spec_block_count(size));
    law_scan_by_table(t, size);
    let init = ExtentScanView::initial(size);
    if init.is_finished() {
        assert(t.len() == 0);
        assert(spec_file_extents(t, size) =~= Seq::<IsoExtent>::empty());
        (fuel - 3) as nat
    } else {
        assert(entries[idx + 1 - 1] == e);
        lemma_dir_scanning(files, e.name, size, init, entries, idx + 1, (t.len() + 2) as nat, (fuel - 3) as nat, rest)
    }
}

proof fn lemma_dir_rest(files: Seq<M2tsFileView>, a: ScanActionView, entries: Seq<DirEntryModel>, idx: int, fuel: nat)
    requires
        0 <= idx <= entries.len(),
        a is ReadEntry || a is CloseFileThenReadEntry,
        tables_fit(entries),
        fuel >= dir_fuel(entries, idx),
    ensures
        drive_dir(M2tsScanView { stage: DirStage::Listing, files }, a, entries, idx, fuel)
            == (M2tsScanView { stage: DirStage::Done, files: files + found_from(entries, idx) }),
    decreases entries.len() - idx,
{
    let v = M2tsScanView { stage: DirStage::Listing, files };
    if idx == entries.len() {
        assert(found_from(entries, idx) =~= Seq::<M2tsFileView>::empty());
        assert(files + Seq::<M2tsFileView>::empty() =~= files);
        let (w, a2) = v.step(ScanEventView::EndOfDirectory);
        assert(drive_dir(v, a, entries, idx, fuel) == drive_dir(w, a2, entries, idx, (fuel - 1) as nat));
    } else {
        let fuel2 = lemma_dir_entry(files, a, entries, idx, fuel, dir_fuel(entries, idx + 1));
        let files2 = if is_found_entry(entries[idx]) { files.push(found_file(entries[idx])) } else { files };
        lemma_dir_rest(files2, ScanActionView::ReadEntry, entries, idx + 1, fuel2);
        lemma_dir_rest(files2, ScanActionView::CloseFileThenReadEntry, entries, idx + 1, fuel2);
        if is_found_entry(entries[idx]) {
            assert(files2 + found_from(entries, idx + 1) =~= files + found_from(entries, idx));
        }
    }
}

/// Scanning a whole directory, with each call answered from its entries,
/// finishes with exactly the stream files among them, in directory order,
/// each with the extents its block table gives.
pub proof fn law_scan_of_directory(entries: Seq<DirEntryModel>)
    requires
        tables_fit(entries),
    ensures
        drive_dir(
            M2tsScanView { stage: DirStage::Listing, files: Seq::empty() },
            ScanActionView::ReadEntry,
            entries,
            0,
            dir_fuel(entries, 0),
        ) == (M2tsScanView { stage: DirStage::Done, files: found_from(entries, 0) }),
{
    lemma_dir_rest(Seq::empty(), ScanActionView::ReadEntry, entries, 0, dir_fuel(entries, 0));
    assert(Seq::<M2tsFileView>::empty() + found_from(entries, 0) =~= found_from(entries, 0));
}

/// `files[k]` is the main title: no file is larger, and every file after it is
/// smaller (sizes compared as the 64-bit sizes they are).
pub open spec fn is_main_title(files: Seq<M2tsFile>, k: int) -> bool {
    &&& 0 <= k < files.len()
    &&& forall|j: int| 0 <= j < files.len() ==> #[trigger] files[j].size <= files[k].size
    &&& forall|j: int| k < j < files.len() ==> #[trigger] files[j].size < files[k].size
}

/// The file picked as main title from a non-empty list is the largest one,
/// and the last of several equally large.
pub proof fn law_main_title_is_largest_file(files: Seq<M2tsFile>)
    requires
        files.len() >= 1,
    ensures
        is_main_title(files, main_index(file_sizes(files))),
        forall|k: int| #[trigger] is_main_title(files, k) ==> k == main_index(file_sizes(files)),
{
    let sizes = file_sizes(files);
    law_main_is_largest(sizes);
    let m = main_index(sizes);
    assert forall|j: int| 0 <= j < files.len() implies #[trigger] files[j].size == sizes[j] by {}
    assert(files[m].size == sizes[m]);
    assert forall|k: int| #[trigger] is_main_title(files, k) implies k == m by {
        if k < m {
            assert(files[m].size < files[k].size);
        } else if k > m {
            assert(files[k].size < files[m].size);
        }
    }
}

/// The bytes `b` end in `.m2ts` with each letter small or capital, spelled
/// out byte by byte.
pub open spec fn ends_in_m2ts_bytes(b: Seq<u8>) -> bool {
    let n = b.len() as int;
    &&& n >= 5
    &&& b[n - 5] == 0x2e
    &&& (b[n - 4] == 0x6d || b[n - 4] == 0x4d)
    &&& b[n - 3] == 0x32
    &&& (b[n - 2] == 0x74 || b[n - 2] == 0x54)
    &&& (b[n - 1] == 0x73 || b[n - 1] == 0x53)
}

/// A name is taken as a stream file's exactly when its last five bytes are
/// `.m2ts` in any mix of letter case; the bytes before them do not matter.
pub proof fn law_m2ts_suffix_is_last_five_bytes(b: Seq<u8>)
    ensures
        has_m2ts_suffix(b) == ends_in_m2ts_bytes(b),
{
}

proof fn lemma_encode_utf8_concat(a: Seq<char>, b: Seq<char>)
    ensures
        vstd::utf8::encode_utf8(a + b) == vstd::utf8::encode_utf8(a) + vstd::utf8::encode_utf8(b),
    decreases a.len(),
{
    if a.len() == 0 {
        assert(a + b =~= b);
        assert(vstd::utf8::encode_utf8(a) =~= Seq::<u8>::empty());
        assert(Seq::<u8>::empty() + vstd::utf8::encode_utf8(b) =~= vstd::utf8::encode_utf8(b));
    } else {
        assert((a + b)[0] == a[0]);
        assert((a + b).drop_first() =~= a.drop_first() + b);
        lemma_encode_utf8_concat(a.drop_first(), b);
        assert(vstd::utf8::encode_utf8(a + b) =~= vstd::utf8::encode_utf8(a) + vstd::utf8::encode_utf8(b));
    }
}

/// Every name made of any stem and `.m2ts`, in small or capital letters, is
/// taken as a stream file's name.
pub proof fn law_every_m2ts_name_is_taken(stem: Seq<char>)
    ensures
        has_m2ts_suffix(vstd::utf8::encode_utf8(stem + seq!['.', 'm', '2', 't', 's'])),
        has_m2ts_suffix(vstd::utf8::encode_utf8(stem + seq!['.', 'M', '2', 'T', 'S'])),
{
    let lo = seq!['.', 'm', '2', 't', 's'];
    let up = seq!['.', 'M', '2', 'T', 'S'];
    assert(vstd::utf8::is_ascii_chars(lo));
    assert(vstd::utf8::is_ascii_chars(up));
    vstd::utf8::is_ascii_chars_encode_utf8(lo);
    vstd::utf8::is_ascii_chars_encode_utf8(up);
    lemma_encode_utf8_concat(stem, lo);
    lemma_encode_utf8_concat(stem, up);
    let e = vstd::utf8::encode_utf8(stem);
    let bl = e + vstd::utf8::encode_utf8(lo);
    let bu = e + vstd::utf8::encode_utf8(up);
    assert(vstd::utf8::encode_utf8(lo)[0] == lo[0] as u8);
    assert(vstd::utf8::encode_utf8(lo)[1] == lo[1] as u8);
    assert(vstd::utf8::encode_utf8(lo)[2] == lo[2] as u8);
    assert(vstd::utf8::encode_utf8(lo)[3] == lo[3] as u8);
    assert(vstd::utf8::encode_utf8(lo)[4] == lo[4] as u8);
    assert(vstd::utf8::encode_utf8(up)[0] == up[0] as u8);
    assert(vstd::utf8::encode_utf8(up)[1] == up[1] as u8);
    assert(vstd::utf8::encode_utf8(up)[2] == up[2] as u8);
    assert(vstd::utf8::encode_utf8(up)[3] == up[3] as u8);
    assert(vstd::utf8::encode_utf8(up)[4] == up[4] as u8);
    assert(ends_in_m2ts_bytes(bl));
    assert(ends_in_m2ts_bytes(bu));
    law_m2ts_suffix_is_last_five_bytes(bl);
    law_m2ts_suffix_is_last_five_bytes(bu);
}

} // verus!
