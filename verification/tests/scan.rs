use tokimo_package_iso::scan::{
    is_m2ts_name, is_stream_entry, stream_file_path, M2tsScan, ScanAction, ScanEvent, STREAM_DIR,
    UDF_DT_REG,
};
use tokimo_package_iso::{find_m2ts_files, select_main_m2ts, IsoExtent, M2tsFile};

/// A directory entry of the simulated disc.
struct Entry {
    d_type: u32,
    name: &'static str,
    /// `None`: the file cannot be opened.
    size: Option<i64>,
    lbas: Vec<u32>,
}

/// Drives the scan over the simulated directory `entries`; returns the files
/// found and the log of calls the scan asked for.
fn run_scan(entries: &[Entry]) -> (Vec<M2tsFile>, Vec<String>) {
    let mut log = Vec::new();
    let mut scan = M2tsScan::new();
    let mut action = scan.pending_action();
    let mut next = 0usize;
    let mut current: Option<usize> = None;
    loop {
        let event = match action {
            ScanAction::ReadEntry => {
                log.push("read".to_string());
                if next < entries.len() {
                    let e = &entries[next];
                    current = Some(next);
                    next += 1;
                    ScanEvent::Entry { d_type: e.d_type, name: e.name.to_string() }
                } else {
                    ScanEvent::EndOfDirectory
                }
            }
            ScanAction::OpenFile(path) => {
                log.push(format!("open {path}"));
                ScanEvent::Opened(entries[current.unwrap()].size.is_some())
            }
            ScanAction::QuerySize => {
                log.push("size".to_string());
                ScanEvent::FileSize(entries[current.unwrap()].size.unwrap())
            }
            ScanAction::QueryLba(b) => {
                log.push(format!("lba {b}"));
                ScanEvent::BlockLba(entries[current.unwrap()].lbas[b as usize])
            }
            ScanAction::CloseFileThenReadEntry => {
                log.push("close".to_string());
                action = ScanAction::ReadEntry;
                continue;
            }
            ScanAction::Finish => break,
        };
        let (s, a) = find_m2ts_files(scan, event);
        scan = s;
        action = a;
    }
    (scan.into_files(), log)
}

#[test]
fn m2ts_names_ignore_case() {
    assert!(is_m2ts_name("00000.m2ts"));
    assert!(is_m2ts_name("00001.M2TS"));
    assert!(is_m2ts_name("a.M2tS"));
    assert!(is_m2ts_name(".m2ts"));
    assert!(!is_m2ts_name("m2ts"));
    assert!(!is_m2ts_name("00000.m2t"));
    assert!(!is_m2ts_name("00000.m2ts.bak"));
    assert!(!is_m2ts_name("00000.mpls"));
    assert!(!is_m2ts_name(""));
    assert!(is_m2ts_name("\u{e9}t\u{e9}.m2ts"));
}

#[test]
fn only_regular_files_are_streams() {
    assert!(is_stream_entry(UDF_DT_REG, "00000.m2ts"));
    assert!(!is_stream_entry(1, "00000.m2ts"));
    assert!(!is_stream_entry(UDF_DT_REG, "index.bdmv"));
}

#[test]
fn stream_paths_are_in_the_stream_directory() {
    assert_eq!(STREAM_DIR, "/BDMV/STREAM");
    assert_eq!(stream_file_path("00800.m2ts"), "/BDMV/STREAM/00800.m2ts");
}

#[test]
fn scan_of_empty_directory_finds_nothing() {
    let (files, log) = run_scan(&[]);
    assert!(files.is_empty());
    assert_eq!(log, vec!["read"]);
}

#[test]
fn scan_finds_stream_files_and_their_extents() {
    let entries = vec![
        Entry { d_type: 1, name: "SUB.m2ts", size: Some(10), lbas: vec![] },
        Entry { d_type: UDF_DT_REG, name: "00000.m2ts", size: Some(5000), lbas: vec![100, 101, 102] },
        Entry { d_type: UDF_DT_REG, name: "readme.txt", size: Some(10), lbas: vec![1] },
        Entry { d_type: UDF_DT_REG, name: "00001.M2TS", size: Some(4096 + 1), lbas: vec![10, 11, 50] },
        Entry { d_type: UDF_DT_REG, name: "00002.m2ts", size: None, lbas: vec![] },
        Entry { d_type: UDF_DT_REG, name: "00003.m2ts", size: Some(0), lbas: vec![] },
        Entry { d_type: UDF_DT_REG, name: "00004.m2ts", size: Some(-3), lbas: vec![] },
        Entry { d_type: UDF_DT_REG, name: "00005.m2ts", size: Some(9), lbas: vec![0] },
    ];
    let (files, log) = run_scan(&entries);
    assert_eq!(files.len(), 3);
    assert_eq!(files[0].filename, "00000.m2ts");
    assert_eq!(files[0].size, 5000);
    assert_eq!(files[0].extents, vec![IsoExtent { offset: 100 * 2048, length: 5000 }]);
    assert_eq!(files[1].filename, "00001.M2TS");
    assert_eq!(files[1].size, 4097);
    assert_eq!(
        files[1].extents,
        vec![IsoExtent { offset: 10 * 2048, length: 4096 }, IsoExtent { offset: 50 * 2048, length: 1 }]
    );
    assert_eq!(files[2].filename, "00005.m2ts");
    assert!(files[2].extents.is_empty());
    assert_eq!(
        log,
        vec![
            "read",
            "read",
            "open /BDMV/STREAM/00000.m2ts",
            "size",
            "lba 0",
            "lba 2",
            "close",
            "read",
            "read",
            "open /BDMV/STREAM/00001.M2TS",
            "size",
            "lba 0",
            "lba 2",
            "lba 0",
            "lba 1",
            "lba 2",
            "close",
            "read",
            "open /BDMV/STREAM/00002.m2ts",
            "read",
            "open /BDMV/STREAM/00003.m2ts",
            "size",
            "close",
            "read",
            "open /BDMV/STREAM/00004.m2ts",
            "size",
            "close",
            "read",
            "open /BDMV/STREAM/00005.m2ts",
            "size",
            "lba 0",
            "close",
            "read",
        ]
    );
}

#[test]
fn unexpected_event_repeats_the_pending_call() {
    let scan = M2tsScan::new();
    let (scan, action) = find_m2ts_files(scan, ScanEvent::FileSize(5));
    assert!(matches!(action, ScanAction::ReadEntry));
    let (scan, action) =
        find_m2ts_files(scan, ScanEvent::Entry { d_type: UDF_DT_REG, name: "x.m2ts".to_string() });
    assert!(matches!(action, ScanAction::OpenFile(ref p) if p == "/BDMV/STREAM/x.m2ts"));
    let (scan, action) = find_m2ts_files(scan, ScanEvent::BlockLba(3));
    assert!(matches!(action, ScanAction::OpenFile(ref p) if p == "/BDMV/STREAM/x.m2ts"));
    let (scan, action) = find_m2ts_files(scan, ScanEvent::EndOfDirectory);
    assert!(matches!(action, ScanAction::OpenFile(_)));
    let (_, action) = find_m2ts_files(scan, ScanEvent::Opened(true));
    assert!(matches!(action, ScanAction::QuerySize));
}

#[test]
fn finished_scan_stays_finished() {
    let scan = M2tsScan::new();
    let (scan, action) = find_m2ts_files(scan, ScanEvent::EndOfDirectory);
    assert!(matches!(action, ScanAction::Finish));
    let (scan, action) =
        find_m2ts_files(scan, ScanEvent::Entry { d_type: UDF_DT_REG, name: "x.m2ts".to_string() });
    assert!(matches!(action, ScanAction::Finish));
    assert!(scan.into_files().is_empty());
}

fn file(name: &str, size: u64) -> M2tsFile {
    M2tsFile { filename: name.to_string(), size, extents: vec![] }
}

#[test]
fn main_title_is_the_largest_file() {
    let files = vec![file("a", 10), file("b", 300), file("c", 20)];
    assert_eq!(select_main_m2ts(&files).unwrap().filename, "b");
}

#[test]
fn main_title_of_equal_sizes_is_the_last() {
    let files = vec![file("a", 300), file("b", 300), file("c", 20)];
    assert_eq!(select_main_m2ts(&files).unwrap().filename, "b");
    let files = vec![file("a", 5), file("b", 5), file("c", 5)];
    assert_eq!(select_main_m2ts(&files).unwrap().filename, "c");
}

#[test]
fn no_main_title_without_files() {
    assert!(select_main_m2ts(&[]).is_none());
}
