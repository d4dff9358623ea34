use std::io;

use tokimo_package_iso::udf::{iso_size_in_sectors, sector_read_span, sectors_delivered};
use tokimo_package_iso::{
    meta_from_scan, read_from_m2ts_extents, IsoExtent, IsoExtentJson, IsoMeta, M2tsFile, ReadAt,
};

/// An in-memory disc image.
struct MemImage {
    bytes: Vec<u8>,
    fail: bool,
}

impl ReadAt for MemImage {
    fn read_at(&self, offset: u64, len: usize) -> io::Result<Vec<u8>> {
        if self.fail {
            return Err(io::Error::new(io::ErrorKind::Other, "boom"));
        }
        let start = (offset as usize).min(self.bytes.len());
        let end = start.saturating_add(len).min(self.bytes.len());
        Ok(self.bytes[start..end].to_vec())
    }

    fn size(&self) -> u64 {
        self.bytes.len() as u64
    }
}

fn image(n: usize) -> MemImage {
    MemImage { bytes: (0..n).map(|i| (i % 251) as u8).collect(), fail: false }
}

fn json(offset: u64, length: u64) -> IsoExtentJson {
    IsoExtentJson { offset, length }
}

fn m2ts(name: &str, size: u64, extents: Vec<IsoExtent>) -> M2tsFile {
    M2tsFile { filename: name.to_string(), size, extents }
}

#[test]
fn meta_records_the_file() {
    let f = m2ts(
        "00000.m2ts",
        5000,
        vec![IsoExtent { offset: 2048, length: 4096 }, IsoExtent { offset: 81920, length: 904 }],
    );
    let meta = IsoMeta::from_m2ts(&f);
    assert_eq!(meta.filename, "00000.m2ts");
    assert_eq!(meta.size, 5000);
    assert_eq!(meta.extents, vec![json(2048, 4096), json(81920, 904)]);
}

#[test]
fn failed_parse_is_reported() {
    let err = meta_from_scan(Err("bad volume".to_string())).unwrap_err();
    assert_eq!(err, "UDF parse failed: bad volume");
}

#[test]
fn empty_stream_directory_is_reported() {
    let err = meta_from_scan(Ok(vec![])).unwrap_err();
    assert_eq!(err, "No M2TS files found in BDMV/STREAM/ \u{2014} not a Blu-ray ISO?");
}

#[test]
fn main_stream_is_recorded() {
    let files = vec![
        m2ts("00001.m2ts", 10, vec![IsoExtent { offset: 0, length: 10 }]),
        m2ts("00002.m2ts", 900, vec![IsoExtent { offset: 4096, length: 900 }]),
        m2ts("00003.m2ts", 900, vec![IsoExtent { offset: 8192, length: 900 }]),
    ];
    let meta = meta_from_scan(Ok(files)).unwrap();
    assert_eq!(meta.filename, "00003.m2ts");
    assert_eq!(meta.size, 900);
    assert_eq!(meta.extents, vec![json(8192, 900)]);
}

#[test]
fn read_within_one_extent() {
    let img = image(10_000);
    let extents = vec![json(1000, 500), json(5000, 300)];
    let got = read_from_m2ts_extents(&extents, 10, 20, |o, l| img.read_at(o, l)).unwrap();
    assert_eq!(got, img.bytes[1010..1030].to_vec());
}

#[test]
fn read_across_extents() {
    let img = image(10_000);
    let extents = vec![json(1000, 500), json(5000, 300), json(200, 100)];
    let got = read_from_m2ts_extents(&extents, 490, 400, |o, l| img.read_at(o, l)).unwrap();
    let mut expect = img.bytes[1490..1500].to_vec();
    expect.extend_from_slice(&img.bytes[5000..5300]);
    expect.extend_from_slice(&img.bytes[200..290]);
    assert_eq!(got, expect);
}

#[test]
fn read_starting_in_a_later_extent() {
    let img = image(10_000);
    let extents = vec![json(1000, 500), json(5000, 300)];
    let got = read_from_m2ts_extents(&extents, 600, 50, |o, l| img.read_at(o, l)).unwrap();
    assert_eq!(got, img.bytes[5100..5150].to_vec());
}

#[test]
fn read_past_the_end_of_the_stream_is_short() {
    let img = image(10_000);
    let extents = vec![json(1000, 500), json(5000, 300)];
    let got = read_from_m2ts_extents(&extents, 700, 1000, |o, l| img.read_at(o, l)).unwrap();
    assert_eq!(got, img.bytes[5200..5300].to_vec());
    let none = read_from_m2ts_extents(&extents, 800, 10, |o, l| img.read_at(o, l)).unwrap();
    assert!(none.is_empty());
    let none = read_from_m2ts_extents(&extents, 5_000, 10, |o, l| img.read_at(o, l)).unwrap();
    assert!(none.is_empty());
}

#[test]
fn zero_length_read_is_empty() {
    let img = image(100);
    let extents = vec![json(0, 50)];
    assert!(read_from_m2ts_extents(&extents, 0, 0, |o, l| img.read_at(o, l)).unwrap().is_empty());
}

#[test]
fn short_read_at_image_end_goes_on_in_next_extent() {
    // The first extent claims bytes beyond the image; its read comes back
    // short, and the rest of the request is served from the next extent.
    let img = image(1000);
    let extents = vec![json(900, 300), json(0, 100)];
    let got = read_from_m2ts_extents(&extents, 0, 150, |o, l| img.read_at(o, l)).unwrap();
    let mut expect = img.bytes[900..1000].to_vec();
    expect.extend_from_slice(&img.bytes[0..50]);
    assert_eq!(got, expect);
}

#[test]
fn read_error_is_passed_on() {
    let img = MemImage { bytes: vec![1, 2, 3], fail: true };
    let extents = vec![json(0, 3)];
    let err = read_from_m2ts_extents(&extents, 0, 2, |o, l| img.read_at(o, l)).unwrap_err();
    assert_eq!(err.to_string(), "boom");
}

#[test]
fn sector_arithmetic_of_callbacks() {
    assert_eq!(iso_size_in_sectors(4096 * 10 + 5), 20);
    assert_eq!(iso_size_in_sectors(2047), 0);
    assert_eq!(sector_read_span(3, 2), (6144, 4096));
    assert_eq!(sectors_delivered(4096, 4096), 2);
    assert_eq!(sectors_delivered(3000, 4096), 1);
    assert_eq!(sectors_delivered(10_000, 4096), 2);
    assert_eq!(sectors_delivered(0, 4096), 0);
}

/// Reads of a synthetic image whose byte at `x` is `x as u8`, logging each call.
fn logged_read(
    log: &std::cell::RefCell<Vec<(u64, usize)>>,
) -> impl Fn(u64, usize) -> io::Result<Vec<u8>> + '_ {
    move |o, n| {
        log.borrow_mut().push((o, n));
        Ok((o..o + n as u64).map(|x| x as u8).collect())
    }
}

#[test]
fn reads_made_per_extent() {
    let log = std::cell::RefCell::new(Vec::new());
    let extents = vec![json(1000, 10), json(5000, 10)];
    let got = read_from_m2ts_extents(&extents, 5, 10, logged_read(&log)).unwrap();
    assert_eq!(got, vec![237, 238, 239, 240, 241, 136, 137, 138, 139, 140]);
    assert_eq!(*log.borrow(), vec![(1005, 5), (5000, 5)]);
}

#[test]
fn offset_at_extent_end_skips_that_extent() {
    let log = std::cell::RefCell::new(Vec::new());
    let extents = vec![json(1000, 10), json(5000, 10)];
    let got = read_from_m2ts_extents(&extents, 10, 4, logged_read(&log)).unwrap();
    assert_eq!(got, vec![136, 137, 138, 139]);
    assert_eq!(*log.borrow(), vec![(5000, 4)]);
}

#[test]
fn empty_range_makes_no_read() {
    let log = std::cell::RefCell::new(Vec::new());
    let extents = vec![json(1000, 10), json(5000, 10)];
    assert!(read_from_m2ts_extents(&extents, 3, 0, logged_read(&log)).unwrap().is_empty());
    assert!(read_from_m2ts_extents(&extents, 20, 5, logged_read(&log)).unwrap().is_empty());
    assert!(log.borrow().is_empty());
}

#[test]
fn zero_length_extents_change_nothing() {
    let log_a = std::cell::RefCell::new(Vec::new());
    let log_b = std::cell::RefCell::new(Vec::new());
    let a = vec![json(1000, 10), json(5000, 10)];
    let b = vec![json(7, 0), json(1000, 10), json(9, 0), json(5000, 10), json(3, 0)];
    let ra = read_from_m2ts_extents(&a, 4, 12, logged_read(&log_a)).unwrap();
    let rb = read_from_m2ts_extents(&b, 4, 12, logged_read(&log_b)).unwrap();
    assert_eq!(ra, rb);
    assert_eq!(*log_a.borrow(), *log_b.borrow());
}

#[test]
fn first_failed_read_stops_the_read() {
    let calls = std::cell::RefCell::new(0usize);
    let extents = vec![json(0, 10), json(100, 10), json(200, 10)];
    let r = read_from_m2ts_extents(&extents, 0, 30, |o, n| {
        *calls.borrow_mut() += 1;
        if o == 100 {
            Err(io::Error::new(io::ErrorKind::Other, "second extent unreadable"))
        } else {
            Ok(vec![1; n])
        }
    });
    assert_eq!(r.unwrap_err().to_string(), "second extent unreadable");
    assert_eq!(*calls.borrow(), 2);
}

#[test]
fn short_reads_are_kept_as_they_are() {
    let extents = vec![json(0, 10), json(100, 10)];
    let got = read_from_m2ts_extents(&extents, 0, 20, |o, _n| Ok(vec![o as u8; 3])).unwrap();
    assert_eq!(got, vec![0, 0, 0, 100, 100, 100]);
}
